//! Byte-level codec: spec-level parse and encode functions over byte
//! sequences, the executable decoder and encoder proved against them, and
//! the round-trip laws.
use vstd::prelude::*;
use crate::data::{
    BGRAColor, Column, Run, Span, SpanHeader, SpanV, VXL, VxlError, column_wf, grid_view, row_view,
    spans_view, spec_color_count, span_wf, vxl_wf,
};

verus! {

/// The 4 bytes of one color on the wire, in the order B, G, R, A.
pub open spec fn color_bytes(c: BGRAColor) -> Seq<u8> {
    seq![c.b, c.g, c.r, c.a]
}

/// The bytes of a run of colors, in stored order.
pub open spec fn colors_bytes(cs: Seq<BGRAColor>) -> Seq<u8>
    decreases cs.len(),
{
    if cs.len() == 0 {
        Seq::empty()
    } else {
        color_bytes(cs[0]) + colors_bytes(cs.drop_first())
    }
}

/// The 4 bytes of a span header on the wire: N, S, E, A.
pub open spec fn header_bytes(h: SpanHeader) -> Seq<u8> {
    seq![h.length, h.starting_height_tcr, h.ending_height_tcr, h.starting_height_air]
}

/// The bytes of one span: its header, then its colors.
pub open spec fn span_bytes(s: SpanV) -> Seq<u8> {
    header_bytes(s.header) + colors_bytes(s.colors)
}

/// The bytes of a column: its spans back to back.
pub open spec fn column_bytes(c: Seq<SpanV>) -> Seq<u8>
    decreases c.len(),
{
    if c.len() == 0 {
        Seq::empty()
    } else {
        span_bytes(c[0]) + column_bytes(c.drop_first())
    }
}

/// The bytes of a row of columns, back to back.
pub open spec fn columns_bytes(cs: Seq<Seq<SpanV>>) -> Seq<u8>
    decreases cs.len(),
{
    if cs.len() == 0 {
        Seq::empty()
    } else {
        column_bytes(cs[0]) + columns_bytes(cs.drop_first())
    }
}

/// The bytes of a whole volume: its rows back to back, nothing else.
pub open spec fn vxl_bytes(v: Seq<Seq<Seq<SpanV>>>) -> Seq<u8>
    decreases v.len(),
{
    if v.len() == 0 {
        Seq::empty()
    } else {
        columns_bytes(v[0]) + vxl_bytes(v.drop_first())
    }
}

/// The header read at `pos` (meaningful when 4 bytes remain).
pub open spec fn parse_header(b: Seq<u8>, pos: int) -> SpanHeader {
    SpanHeader {
        length: b[pos],
        starting_height_tcr: b[pos + 1],
        ending_height_tcr: b[pos + 2],
        starting_height_air: b[pos + 3],
    }
}

/// The color read at `pos` (meaningful when 4 bytes remain).
pub open spec fn parse_color(b: Seq<u8>, pos: int) -> BGRAColor {
    BGRAColor { b: b[pos], g: b[pos + 1], r: b[pos + 2], a: b[pos + 3] }
}

/// Parse one span at `pos`: the header, then exactly the implied number
/// of colors. `None` means the input ends too early; otherwise the span
/// and the position just past it.
pub open spec fn parse_span(b: Seq<u8>, pos: int) -> Option<(SpanV, int)> {
    if pos + 4 <= b.len() {
        let h = parse_header(b, pos);
        let n = spec_color_count(h) as int;
        if pos + 4 + 4 * n <= b.len() {
            Some((
                SpanV { header: h, colors: Seq::new(n as nat, |i: int| parse_color(b, pos + 4 + 4 * i)) },
                pos + 4 + 4 * n,
            ))
        } else {
            None
        }
    } else {
        None
    }
}

/// Parse one column at `pos`: spans until and including the first
/// terminal one. `None` means the input was exhausted first.
pub open spec fn parse_column(b: Seq<u8>, pos: int) -> Option<(Seq<SpanV>, int)>
    decreases b.len() - pos,
{
    match parse_span(b, pos) {
        None => None,
        Some((s, end)) => {
            if s.header.length == 0 {
                Some((seq![s], end))
            } else if pos < end <= b.len() {
                match parse_column(b, end) {
                    None => None,
                    Some((rest, end2)) => Some((seq![s] + rest, end2)),
                }
            } else {
                None
            }
        },
    }
}

/// Parse `k` columns back to back starting at `pos`.
pub open spec fn parse_columns(b: Seq<u8>, pos: int, k: nat) -> Option<(Seq<Seq<SpanV>>, int)>
    decreases k,
{
    if k == 0 {
        Some((Seq::empty(), pos))
    } else {
        match parse_column(b, pos) {
            None => None,
            Some((c, end)) => match parse_columns(b, end, (k - 1) as nat) {
                None => None,
                Some((rest, end2)) => Some((seq![c] + rest, end2)),
            },
        }
    }
}

/// Parse `k` rows of 512 columns each starting at `pos`.
pub open spec fn parse_rows(b: Seq<u8>, pos: int, k: nat) -> Option<(Seq<Seq<Seq<SpanV>>>, int)>
    decreases k,
{
    if k == 0 {
        Some((Seq::empty(), pos))
    } else {
        match parse_columns(b, pos, 512) {
            None => None,
            Some((row, end)) => match parse_rows(b, end, (k - 1) as nat) {
                None => None,
                Some((rest, end2)) => Some((seq![row] + rest, end2)),
            },
        }
    }
}

impl BGRAColor {
    /// Decode one color from 4 bytes at `pos`.
    pub fn read_from(input: &Vec<u8>, pos: usize) -> (r: Result<(BGRAColor, usize), VxlError>)
        ensures
            match r {
                Ok((c, end)) => pos + 4 <= input@.len() && end == pos + 4
                    && c == parse_color(input@, pos as int),
                Err(e) => pos + 4 > input@.len() && e == VxlError::UnexpectedEndOfInput,
            },
    {
        if input.len() < 4 || pos > input.len() - 4 {
            return Err(VxlError::UnexpectedEndOfInput);
        }
        Ok((
            BGRAColor { b: input[pos], g: input[pos + 1], r: input[pos + 2], a: input[pos + 3] },
            pos + 4,
        ))
    }

    /// Encode this color as its 4 bytes, appended to `out`.
    pub fn write_to(&self, out: &mut Vec<u8>)
        ensures
            final(out)@ == old(out)@ + color_bytes(*self),
    {
        out.push(self.b);
        out.push(self.g);
        out.push(self.r);
        out.push(self.a);
        assert(out@ =~= old(out)@ + color_bytes(*self));
    }
}

impl SpanHeader {
    /// Decode one header from 4 bytes at `pos`.
    pub fn read_from(input: &Vec<u8>, pos: usize) -> (r: Result<(SpanHeader, usize), VxlError>)
        ensures
            match r {
                Ok((h, end)) => pos + 4 <= input@.len() && end == pos + 4
                    && h == parse_header(input@, pos as int),
                Err(e) => pos + 4 > input@.len() && e == VxlError::UnexpectedEndOfInput,
            },
    {
        if input.len() < 4 || pos > input.len() - 4 {
            return Err(VxlError::UnexpectedEndOfInput);
        }
        Ok((
            SpanHeader {
                length: input[pos],
                starting_height_tcr: input[pos + 1],
                ending_height_tcr: input[pos + 2],
                starting_height_air: input[pos + 3],
            },
            pos + 4,
        ))
    }

    /// Encode this header as its 4 bytes, appended to `out`.
    pub fn write_to(&self, out: &mut Vec<u8>)
        ensures
            final(out)@ == old(out)@ + header_bytes(*self),
    {
        out.push(self.length);
        out.push(self.starting_height_tcr);
        out.push(self.ending_height_tcr);
        out.push(self.starting_height_air);
        assert(out@ =~= old(out)@ + header_bytes(*self));
    }
}

} // verus!

verus! {

/// The bytes of a concatenation of color runs are the concatenated bytes.
pub proof fn lemma_colors_bytes_concat(a: Seq<BGRAColor>, b: Seq<BGRAColor>)
    ensures
        colors_bytes(a + b) == colors_bytes(a) + colors_bytes(b),
    decreases a.len(),
{
    if a.len() == 0 {
        assert(a + b =~= b);
        assert(colors_bytes(a) + colors_bytes(b) =~= colors_bytes(b));
    } else {
        assert((a + b).drop_first() =~= a.drop_first() + b);
        lemma_colors_bytes_concat(a.drop_first(), b);
        assert((a + b)[0] == a[0]);
        assert(colors_bytes(a + b) =~= colors_bytes(a) + colors_bytes(b));
    }
}

/// A color run's bytes are four per color.
pub proof fn lemma_colors_bytes_len(cs: Seq<BGRAColor>)
    ensures
        colors_bytes(cs).len() == 4 * cs.len(),
    decreases cs.len(),
{
    if cs.len() > 0 {
        lemma_colors_bytes_len(cs.drop_first());
    }
}

/// Each color's fields sit at their fixed offsets in the run's bytes.
pub proof fn lemma_colors_bytes_index(cs: Seq<BGRAColor>, i: int)
    requires
        0 <= i < cs.len(),
    ensures
        colors_bytes(cs).len() == 4 * cs.len(),
        colors_bytes(cs)[4 * i] == cs[i].b,
        colors_bytes(cs)[4 * i + 1] == cs[i].g,
        colors_bytes(cs)[4 * i + 2] == cs[i].r,
        colors_bytes(cs)[4 * i + 3] == cs[i].a,
    decreases i,
{
    lemma_colors_bytes_len(cs);
    lemma_colors_bytes_len(cs.drop_first());
    if i == 0 {
    } else {
        lemma_colors_bytes_index(cs.drop_first(), i - 1);
        assert(cs.drop_first()[i - 1] == cs[i]);
    }
}

/// A window of colors read from `b` serializes back to that window of `b`.
pub proof fn lemma_colors_window(b: Seq<u8>, start: int, n: nat)
    requires
        0 <= start,
        start + 4 * n <= b.len(),
    ensures
        colors_bytes(Seq::new(n, |i: int| parse_color(b, start + 4 * i)))
            == b.subrange(start, start + 4 * n),
    decreases n,
{
    let cs = Seq::new(n, |i: int| parse_color(b, start + 4 * i));
    if n == 0 {
        assert(colors_bytes(cs) =~= b.subrange(start, start));
    } else {
        assert(cs.drop_first() =~= Seq::new((n - 1) as nat, |i: int| parse_color(b, (start + 4) + 4 * i)));
        lemma_colors_window(b, start + 4, (n - 1) as nat);
        assert(colors_bytes(cs) =~= b.subrange(start, start + 4 * n));
    }
}

/// A parsed span is well formed and serializes back to exactly the bytes
/// it was parsed from.
pub proof fn lemma_parse_span_bytes(b: Seq<u8>, pos: int, s: SpanV, end: int)
    requires
        0 <= pos,
        parse_span(b, pos) == Some((s, end)),
    ensures
        span_wf(s),
        pos + 4 <= end <= b.len(),
        end == pos + 4 + 4 * spec_color_count(s.header),
        span_bytes(s) == b.subrange(pos, end),
{
    let h = parse_header(b, pos);
    let n = spec_color_count(h) as int;
    assert(header_bytes(h) =~= b.subrange(pos, pos + 4));
    lemma_colors_window(b, pos + 4, n as nat);
    assert(span_bytes(s) =~= b.subrange(pos, end));
}

/// A well-formed span laid down in `b` parses back to itself.
pub proof fn lemma_span_bytes_parse(b: Seq<u8>, pos: int, s: SpanV)
    requires
        span_wf(s),
        0 <= pos,
        pos + span_bytes(s).len() <= b.len(),
        b.subrange(pos, pos + span_bytes(s).len() as int) == span_bytes(s),
    ensures
        span_bytes(s).len() == 4 + 4 * spec_color_count(s.header),
        parse_span(b, pos) == Some((s, pos + span_bytes(s).len() as int)),
{
    lemma_colors_bytes_len(s.colors);
    let n = spec_color_count(s.header) as int;
    let sb = span_bytes(s);
    let sub = b.subrange(pos, pos + sb.len() as int);
    assert(sb.len() == 4 + 4 * n);
    assert(sub[0] == b[pos + 0] && sub[1] == b[pos + 1] && sub[2] == b[pos + 2] && sub[3] == b[
        pos + 3]);
    assert(sb[0] == s.header.length && sb[1] == s.header.starting_height_tcr && sb[2]
        == s.header.ending_height_tcr && sb[3] == s.header.starting_height_air);
    assert(parse_header(b, pos) == s.header);
    let h = parse_header(b, pos);
    let cs = Seq::new(n as nat, |i: int| parse_color(b, pos + 4 + 4 * i));
    assert forall|i: int| 0 <= i < n implies cs[i] == s.colors[i] by {
        lemma_colors_bytes_index(s.colors, i);
        assert(sub[4 + 4 * i] == b[pos + (4 + 4 * i)]);
        assert(sub[4 + 4 * i + 1] == b[pos + (4 + 4 * i + 1)]);
        assert(sub[4 + 4 * i + 2] == b[pos + (4 + 4 * i + 2)]);
        assert(sub[4 + 4 * i + 3] == b[pos + (4 + 4 * i + 3)]);
        assert(sb[4 + 4 * i] == colors_bytes(s.colors)[4 * i]);
        assert(sb[4 + 4 * i + 1] == colors_bytes(s.colors)[4 * i + 1]);
        assert(sb[4 + 4 * i + 2] == colors_bytes(s.colors)[4 * i + 2]);
        assert(sb[4 + 4 * i + 3] == colors_bytes(s.colors)[4 * i + 3]);
    }
    assert(cs =~= s.colors);
    assert((SpanV { header: h, colors: cs }) =~= s);
}

impl Span {
    /// Decode one span at `pos`: its header, its classification as
    /// terminal or not, then exactly the implied run of colors.
    pub fn read_from(input: &Vec<u8>, pos: usize) -> (r: Result<(Span, usize), VxlError>)
        ensures
            match r {
                Ok((s, end)) => parse_span(input@, pos as int) == Some((s@, end as int))
                    && pos + 4 <= end <= input@.len() && span_wf(s@),
                Err(e) => parse_span(input@, pos as int) is None
                    && e == VxlError::UnexpectedEndOfInput,
            },
    {
        let (header, after_header) = match SpanHeader::read_from(input, pos) {
            Ok(p) => p,
            Err(e) => {
                return Err(e);
            },
        };
        let run = if header.length == 0 {
            Run::LastSpan { header }
        } else {
            Run::Span { header }
        };
        let count: usize = run.size().wrapping_sub(1) as usize;
        assert(count == spec_color_count(header));
        let mut colors: Vec<BGRAColor> = Vec::new();
        let mut cur: usize = after_header;
        let mut i: usize = 0;
        while i < count
            invariant
                i <= count,
                header == parse_header(input@, pos as int),
                count == spec_color_count(header),
                pos + 4 <= input@.len(),
                cur == pos + 4 + 4 * i,
                cur <= input@.len(),
                colors@.len() == i,
                forall|j: int| 0 <= j < i ==> colors@[j] == parse_color(input@, pos + 4 + 4 * j),
            decreases count - i,
        {
            match BGRAColor::read_from(input, cur) {
                Ok((c, end)) => {
                    colors.push(c);
                    cur = end;
                    i = i + 1;
                },
                Err(e) => {
                    assert(parse_span(input@, pos as int) is None);
                    return Err(e);
                },
            }
        }
        let s = Span { header, colors };
        proof {
            let n = spec_color_count(header) as int;
            assert(s@.colors =~= Seq::new(n as nat, |j: int| parse_color(input@, pos + 4 + 4 * j)));
            assert(s@ =~= parse_span(input@, pos as int)->Some_0.0);
        }
        Ok((s, cur))
    }

    /// Encode this span: its 4 header bytes, then each color in stored
    /// order, appended to `out`.
    pub fn write_to(&self, out: &mut Vec<u8>)
        ensures
            final(out)@ == old(out)@ + span_bytes(self@),
    {
        self.header.write_to(out);
        let mut i: usize = 0;
        while i < self.colors.len()
            invariant
                i <= self.colors.len(),
                out@ == old(out)@ + header_bytes(self.header) + colors_bytes(self.colors@.take(i as int)),
            decreases self.colors.len() - i,
        {
            self.colors[i].write_to(out);
            proof {
                let c = self.colors@[i as int];
                assert(self.colors@.take(i + 1) =~= self.colors@.take(i as int) + seq![c]);
                lemma_colors_bytes_concat(self.colors@.take(i as int), seq![c]);
                assert(seq![c].drop_first() =~= Seq::<BGRAColor>::empty());
                assert(seq![c].len() == 1 && seq![c][0] == c);
                assert(colors_bytes(seq![c]) == color_bytes(c) + colors_bytes(seq![c].drop_first()));
                assert(colors_bytes(seq![c]) =~= color_bytes(c));
                assert(out@ =~= old(out)@ + header_bytes(self.header) + colors_bytes(
                    self.colors@.take(i + 1)));
            }
            i = i + 1;
        }
        proof {
            assert(self.colors@.take(self.colors@.len() as int) =~= self.colors@);
            assert(out@ =~= old(out)@ + span_bytes(self@));
        }
    }
}

} // verus!

verus! {

/// The bytes of a concatenation of span sequences are the concatenated
/// bytes.
pub proof fn lemma_column_bytes_concat(a: Seq<SpanV>, b: Seq<SpanV>)
    ensures
        column_bytes(a + b) == column_bytes(a) + column_bytes(b),
    decreases a.len(),
{
    if a.len() == 0 {
        assert(a + b =~= b);
        assert(column_bytes(a) + column_bytes(b) =~= column_bytes(b));
    } else {
        assert((a + b).drop_first() =~= a.drop_first() + b);
        lemma_column_bytes_concat(a.drop_first(), b);
        assert((a + b)[0] == a[0]);
        assert(column_bytes(a + b) =~= column_bytes(a) + column_bytes(b));
    }
}

/// A parsed column is well formed and serializes back to exactly the
/// bytes it was parsed from.
pub proof fn lemma_parse_column_bytes(b: Seq<u8>, pos: int, c: Seq<SpanV>, end: int)
    requires
        0 <= pos,
        parse_column(b, pos) == Some((c, end)),
    ensures
        column_wf(c),
        pos + 4 <= end <= b.len(),
        column_bytes(c) == b.subrange(pos, end),
    decreases b.len() - pos,
{
    let sp = parse_span(b, pos);
    let s = sp->Some_0.0;
    let e1 = sp->Some_0.1;
    lemma_parse_span_bytes(b, pos, s, e1);
    if s.header.length == 0 {
        assert(c == seq![s] && end == e1);
        assert(seq![s].drop_first() =~= Seq::<SpanV>::empty());
        assert(seq![s].len() == 1 && seq![s][0] == s);
        assert(column_bytes(c) == span_bytes(s) + column_bytes(seq![s].drop_first()));
        assert(column_bytes(c) =~= b.subrange(pos, end));
    } else {
        let rc = parse_column(b, e1);
        let rest = rc->Some_0.0;
        lemma_parse_column_bytes(b, e1, rest, end);
        assert(c == seq![s] + rest);
        assert(c.drop_first() =~= rest);
        assert(c[0] == s);
        assert(column_wf(c)) by {
            assert(forall|i: int| 0 <= i < c.len() ==> #[trigger] c[i] == (if i == 0 { s } else { rest[i - 1] }));
        }
        assert(column_bytes(c) =~= b.subrange(pos, end));
    }
}

/// A well-formed column laid down in `b` parses back to itself.
pub proof fn lemma_column_bytes_parse(b: Seq<u8>, pos: int, c: Seq<SpanV>)
    requires
        column_wf(c),
        0 <= pos,
        pos + column_bytes(c).len() <= b.len(),
        b.subrange(pos, pos + column_bytes(c).len() as int) == column_bytes(c),
    ensures
        parse_column(b, pos) == Some((c, pos + column_bytes(c).len() as int)),
    decreases c.len(),
{
    let cb = column_bytes(c);
    let s = c[0];
    let sb = span_bytes(s);
    let rest = c.drop_first();
    let rb = column_bytes(rest);
    assert(cb == sb + rb);
    assert(sb.len() <= cb.len());
    assert forall|k: int| 0 <= k < sb.len() implies b.subrange(pos, pos + sb.len() as int)[k]
        == sb[k] by {
        assert(b.subrange(pos, pos + cb.len() as int)[k] == b[pos + k]);
        assert(b.subrange(pos, pos + sb.len() as int)[k] == b[pos + k]);
        assert(cb[k] == sb[k]);
    }
    assert(b.subrange(pos, pos + sb.len() as int) =~= sb);
    lemma_span_bytes_parse(b, pos, s);
    let e1 = pos + sb.len() as int;
    if c.len() == 1 {
        assert(s.header.length == 0);
        assert(rest.len() == 0);
        assert(cb.len() == sb.len());
        assert(seq![s] =~= c);
    } else {
        assert(s.header.length != 0);
        assert(column_wf(rest)) by {
            assert(forall|i: int| 0 <= i < rest.len() ==> #[trigger] rest[i] == c[i + 1]);
        }
        assert forall|k: int| 0 <= k < rb.len() implies b.subrange(e1, e1 + rb.len() as int)[k]
            == rb[k] by {
            assert(b.subrange(pos, pos + cb.len() as int)[sb.len() + k] == b[pos + sb.len() + k]);
            assert(b.subrange(e1, e1 + rb.len() as int)[k] == b[e1 + k]);
            assert(cb[sb.len() + k] == rb[k]);
        }
        assert(b.subrange(e1, e1 + rb.len() as int) =~= rb);
        lemma_column_bytes_parse(b, e1, rest);
        assert(seq![s] + rest =~= c);
    }
}

impl Column {
    /// Decode one column at `pos`: spans in order until the first
    /// terminal span, which is kept as the last element.
    pub fn read_from(input: &Vec<u8>, pos: usize) -> (r: Result<(Column, usize), VxlError>)
        ensures
            match r {
                Ok((c, end)) => parse_column(input@, pos as int) == Some((c@, end as int))
                    && pos + 4 <= end <= input@.len() && column_wf(c@),
                Err(e) => parse_column(input@, pos as int) is None
                    && e == VxlError::UnexpectedEndOfInput,
            },
    {
        let mut data: Vec<Span> = Vec::new();
        let mut cur: usize = pos;
        proof {
            match parse_column(input@, pos as int) {
                Some(pr) => {
                    assert(spans_view(data@) =~= Seq::<SpanV>::empty());
                    assert(spans_view(data@) + pr.0 =~= pr.0);
                },
                None => {},
            }
        }
        loop
            invariant
                pos <= cur,
                cur == pos || cur <= input@.len(),
                (match parse_column(input@, cur as int) {
                    Some(pr) => parse_column(input@, pos as int)
                        == Some((spans_view(data@) + pr.0, pr.1)),
                    None => parse_column(input@, pos as int) is None,
                }),
            decreases input@.len() - cur,
        {
            match Span::read_from(input, cur) {
                Err(e) => {
                    return Err(e);
                },
                Ok((s, end)) => {
                    let terminal = s.header.length == 0;
                    let ghost pre = data@;
                    let ghost sv = s@;
                    data.push(s);
                    proof {
                        assert(spans_view(data@) =~= spans_view(pre) + seq![sv]);
                        if terminal {
                            assert(parse_column(input@, cur as int)
                                == Some((seq![sv], end as int)));
                        } else {
                            assert(cur < end <= input@.len());
                            match parse_column(input@, end as int) {
                                Some(pr2) => {
                                    assert(parse_column(input@, cur as int)
                                        == Some((seq![sv] + pr2.0, pr2.1)));
                                    assert(spans_view(pre) + (seq![sv] + pr2.0)
                                        =~= spans_view(data@) + pr2.0);
                                },
                                None => {
                                    assert(parse_column(input@, cur as int) is None);
                                },
                            }
                        }
                    }
                    if terminal {
                        let c = Column { data };
                        proof {
                            assert(parse_column(input@, pos as int)
                                == Some((c@, end as int)));
                            lemma_parse_column_bytes(input@, pos as int, c@, end as int);
                        }
                        return Ok((c, end));
                    }
                    cur = end;
                },
            }
        }
    }

    /// Encode this column: each span in sequence, unchanged, appended to
    /// `out`.
    pub fn write_to(&self, out: &mut Vec<u8>)
        ensures
            final(out)@ == old(out)@ + column_bytes(self@),
    {
        let mut i: usize = 0;
        while i < self.data.len()
            invariant
                i <= self.data.len(),
                out@ == old(out)@ + column_bytes(self@.take(i as int)),
            decreases self.data.len() - i,
        {
            self.data[i].write_to(out);
            proof {
                let sv = self@[i as int];
                assert(self@.take(i + 1) =~= self@.take(i as int) + seq![sv]);
                lemma_column_bytes_concat(self@.take(i as int), seq![sv]);
                assert(seq![sv].drop_first() =~= Seq::<SpanV>::empty());
                assert(seq![sv].len() == 1 && seq![sv][0] == sv);
                assert(column_bytes(seq![sv]) == span_bytes(sv) + column_bytes(seq![sv].drop_first()));
                assert(column_bytes(seq![sv]) =~= span_bytes(sv));
                assert(out@ =~= old(out)@ + column_bytes(self@.take(i + 1)));
            }
            i = i + 1;
        }
        proof {
            assert(self@.take(self@.len() as int) =~= self@);
        }
    }
}

} // verus!

verus! {

/// The bytes of a concatenation of column sequences are the concatenated
/// bytes.
pub proof fn lemma_columns_bytes_concat(a: Seq<Seq<SpanV>>, b: Seq<Seq<SpanV>>)
    ensures
        columns_bytes(a + b) == columns_bytes(a) + columns_bytes(b),
    decreases a.len(),
{
    if a.len() == 0 {
        assert(a + b =~= b);
        assert(columns_bytes(a) + columns_bytes(b) =~= columns_bytes(b));
    } else {
        assert((a + b).drop_first() =~= a.drop_first() + b);
        lemma_columns_bytes_concat(a.drop_first(), b);
        assert((a + b)[0] == a[0]);
        assert(columns_bytes(a + b) =~= columns_bytes(a) + columns_bytes(b));
    }
}

/// The bytes of a concatenation of row sequences are the concatenated
/// bytes.
pub proof fn lemma_vxl_bytes_concat(a: Seq<Seq<Seq<SpanV>>>, b: Seq<Seq<Seq<SpanV>>>)
    ensures
        vxl_bytes(a + b) == vxl_bytes(a) + vxl_bytes(b),
    decreases a.len(),
{
    if a.len() == 0 {
        assert(a + b =~= b);
        assert(vxl_bytes(a) + vxl_bytes(b) =~= vxl_bytes(b));
    } else {
        assert((a + b).drop_first() =~= a.drop_first() + b);
        lemma_vxl_bytes_concat(a.drop_first(), b);
        assert((a + b)[0] == a[0]);
        assert(vxl_bytes(a + b) =~= vxl_bytes(a) + vxl_bytes(b));
    }
}

/// A parsed run of `k` columns is `k` well-formed columns that serialize
/// back to exactly the bytes they were parsed from.
pub proof fn lemma_parse_columns_bytes(b: Seq<u8>, pos: int, k: nat, cs: Seq<Seq<SpanV>>, end: int)
    requires
        0 <= pos <= b.len(),
        parse_columns(b, pos, k) == Some((cs, end)),
    ensures
        cs.len() == k,
        forall|i: int| 0 <= i < cs.len() ==> column_wf(#[trigger] cs[i]),
        pos <= end <= b.len(),
        columns_bytes(cs) == b.subrange(pos, end),
    decreases k,
{
    if k == 0 {
        assert(cs == Seq::<Seq<SpanV>>::empty() && end == pos);
        assert(columns_bytes(cs) =~= b.subrange(pos, pos));
    } else {
        let pc = parse_column(b, pos);
        let c = pc->Some_0.0;
        let e1 = pc->Some_0.1;
        lemma_parse_column_bytes(b, pos, c, e1);
        let rc = parse_columns(b, e1, (k - 1) as nat);
        let rest = rc->Some_0.0;
        lemma_parse_columns_bytes(b, e1, (k - 1) as nat, rest, end);
        assert(cs == seq![c] + rest);
        assert(cs.drop_first() =~= rest);
        assert(cs[0] == c);
        assert(forall|i: int| 0 <= i < cs.len()
            ==> #[trigger] cs[i] == (if i == 0 { c } else { rest[i - 1] }));
        assert(columns_bytes(cs) =~= b.subrange(pos, end));
    }
}

/// A run of `k` well-formed columns laid down in `b` parses back to
/// itself.
pub proof fn lemma_columns_bytes_parse(b: Seq<u8>, pos: int, cs: Seq<Seq<SpanV>>)
    requires
        forall|i: int| 0 <= i < cs.len() ==> column_wf(#[trigger] cs[i]),
        0 <= pos,
        pos + columns_bytes(cs).len() <= b.len(),
        b.subrange(pos, pos + columns_bytes(cs).len() as int) == columns_bytes(cs),
    ensures
        parse_columns(b, pos, cs.len() as nat) == Some((
            cs,
            pos + columns_bytes(cs).len() as int,
        )),
    decreases cs.len(),
{
    if cs.len() == 0 {
        assert(cs =~= Seq::<Seq<SpanV>>::empty());
    } else {
        let cb = columns_bytes(cs);
        let c = cs[0];
        let cb0 = column_bytes(c);
        let rest = cs.drop_first();
        let rb = columns_bytes(rest);
        assert(cb == cb0 + rb);
        assert forall|kk: int| 0 <= kk < cb0.len() implies b.subrange(pos, pos + cb0.len() as int)[kk]
            == cb0[kk] by {
            assert(b.subrange(pos, pos + cb.len() as int)[kk] == b[pos + kk]);
            assert(b.subrange(pos, pos + cb0.len() as int)[kk] == b[pos + kk]);
            assert(cb[kk] == cb0[kk]);
        }
        assert(b.subrange(pos, pos + cb0.len() as int) =~= cb0);
        lemma_column_bytes_parse(b, pos, c);
        let e1 = pos + cb0.len() as int;
        assert(forall|i: int| 0 <= i < rest.len() ==> #[trigger] rest[i] == cs[i + 1]);
        assert forall|kk: int| 0 <= kk < rb.len() implies b.subrange(e1, e1 + rb.len() as int)[kk]
            == rb[kk] by {
            assert(b.subrange(pos, pos + cb.len() as int)[cb0.len() + kk] == b[pos + cb0.len() + kk]);
            assert(b.subrange(e1, e1 + rb.len() as int)[kk] == b[e1 + kk]);
            assert(cb[cb0.len() + kk] == rb[kk]);
        }
        assert(b.subrange(e1, e1 + rb.len() as int) =~= rb);
        lemma_columns_bytes_parse(b, e1, rest);
        assert(seq![c] + rest =~= cs);
    }
}

/// A parsed run of `k` rows is `k` rows of 512 well-formed columns that
/// serialize back to exactly the bytes they were parsed from.
pub proof fn lemma_parse_rows_bytes(b: Seq<u8>, pos: int, k: nat, v: Seq<Seq<Seq<SpanV>>>, end: int)
    requires
        0 <= pos <= b.len(),
        parse_rows(b, pos, k) == Some((v, end)),
    ensures
        v.len() == k,
        forall|i: int| 0 <= i < v.len() ==> (#[trigger] v[i]).len() == 512,
        forall|i: int, j: int| 0 <= i < v.len() && 0 <= j < v[i].len()
            ==> column_wf(#[trigger] v[i][j]),
        pos <= end <= b.len(),
        vxl_bytes(v) == b.subrange(pos, end),
    decreases k,
{
    if k == 0 {
        assert(v == Seq::<Seq<Seq<SpanV>>>::empty() && end == pos);
        assert(vxl_bytes(v) =~= b.subrange(pos, pos));
    } else {
        let pr = parse_columns(b, pos, 512);
        let row = pr->Some_0.0;
        let e1 = pr->Some_0.1;
        lemma_parse_columns_bytes(b, pos, 512, row, e1);
        let rr = parse_rows(b, e1, (k - 1) as nat);
        let rest = rr->Some_0.0;
        lemma_parse_rows_bytes(b, e1, (k - 1) as nat, rest, end);
        assert(v == seq![row] + rest);
        assert(v.drop_first() =~= rest);
        assert(v[0] == row);
        assert(forall|i: int| 0 <= i < v.len()
            ==> #[trigger] v[i] == (if i == 0 { row } else { rest[i - 1] }));
        assert(vxl_bytes(v) =~= b.subrange(pos, end));
    }
}

/// A grid of rows of 512 well-formed columns laid down in `b` parses back
/// to itself.
pub proof fn lemma_rows_bytes_parse(b: Seq<u8>, pos: int, v: Seq<Seq<Seq<SpanV>>>)
    requires
        forall|i: int| 0 <= i < v.len() ==> (#[trigger] v[i]).len() == 512,
        forall|i: int, j: int| 0 <= i < v.len() && 0 <= j < v[i].len()
            ==> column_wf(#[trigger] v[i][j]),
        0 <= pos,
        pos + vxl_bytes(v).len() <= b.len(),
        b.subrange(pos, pos + vxl_bytes(v).len() as int) == vxl_bytes(v),
    ensures
        parse_rows(b, pos, v.len() as nat) == Some((v, pos + vxl_bytes(v).len() as int)),
    decreases v.len(),
{
    if v.len() == 0 {
        assert(v =~= Seq::<Seq<Seq<SpanV>>>::empty());
    } else {
        let vb = vxl_bytes(v);
        let row = v[0];
        let rb0 = columns_bytes(row);
        let rest = v.drop_first();
        let rb = vxl_bytes(rest);
        assert(vb == rb0 + rb);
        assert forall|kk: int| 0 <= kk < rb0.len() implies b.subrange(pos, pos + rb0.len() as int)[kk]
            == rb0[kk] by {
            assert(b.subrange(pos, pos + vb.len() as int)[kk] == b[pos + kk]);
            assert(b.subrange(pos, pos + rb0.len() as int)[kk] == b[pos + kk]);
            assert(vb[kk] == rb0[kk]);
        }
        assert(b.subrange(pos, pos + rb0.len() as int) =~= rb0);
        assert(forall|j: int| 0 <= j < row.len() ==> column_wf(#[trigger] row[j])) by {
            assert(forall|j: int| 0 <= j < v[0].len() ==> column_wf(#[trigger] v[0][j]));
        }
        lemma_columns_bytes_parse(b, pos, row);
        let e1 = pos + rb0.len() as int;
        assert(forall|i: int| 0 <= i < rest.len() ==> #[trigger] rest[i] == v[i + 1]);
        assert(forall|i: int, j: int| 0 <= i < rest.len() && 0 <= j < rest[i].len()
            ==> column_wf(#[trigger] rest[i][j])) by {
            assert(forall|i: int, j: int| 0 <= i < rest.len() && 0 <= j < rest[i].len()
                ==> rest[i] == v[i + 1] && column_wf(#[trigger] v[i + 1][j]));
        }
        assert forall|kk: int| 0 <= kk < rb.len() implies b.subrange(e1, e1 + rb.len() as int)[kk]
            == rb[kk] by {
            assert(b.subrange(pos, pos + vb.len() as int)[rb0.len() + kk] == b[pos + rb0.len() + kk]);
            assert(b.subrange(e1, e1 + rb.len() as int)[kk] == b[e1 + kk]);
            assert(vb[rb0.len() + kk] == rb[kk]);
        }
        assert(b.subrange(e1, e1 + rb.len() as int) =~= rb);
        lemma_rows_bytes_parse(b, e1, rest);
        assert(seq![row] + rest =~= v);
        assert(row.len() as nat == 512);
        assert(parse_columns(b, pos, 512) == Some((row, e1)));
    }
}

} // verus!

verus! {

/// Decode one row of 512 columns back to back starting at `pos`.
fn read_row(input: &Vec<u8>, pos: usize) -> (r: Result<(Vec<Column>, usize), VxlError>)
    ensures
        match r {
            Ok((row, end)) => parse_columns(input@, pos as int, 512) == Some((
                row_view(row@),
                end as int,
            )) && pos <= end <= input@.len() && row@.len() == 512,
            Err(e) => parse_columns(input@, pos as int, 512) is None
                && e == VxlError::UnexpectedEndOfInput,
        },
{
    let mut row: Vec<Column> = Vec::new();
    let mut cur: usize = pos;
    let mut j: usize = 0;
    proof {
        match parse_columns(input@, pos as int, 512) {
            Some(pr) => {
                assert(row_view(row@) =~= Seq::<Seq<SpanV>>::empty());
                assert(row_view(row@) + pr.0 =~= pr.0);
            },
            None => {},
        }
    }
    while j < 512
        invariant
            j <= 512,
            row@.len() == j,
            pos <= cur,
            cur == pos || cur <= input@.len(),
            (match parse_columns(input@, cur as int, (512 - j) as nat) {
                Some(pr) => parse_columns(input@, pos as int, 512) == Some((
                    row_view(row@) + pr.0,
                    pr.1,
                )),
                None => parse_columns(input@, pos as int, 512) is None,
            }),
        decreases 512 - j,
    {
        match Column::read_from(input, cur) {
            Err(e) => {
                proof {
                    assert(parse_columns(input@, cur as int, (512 - j) as nat) is None);
                }
                return Err(e);
            },
            Ok((c, end)) => {
                let ghost pre = row@;
                let ghost cv = c@;
                row.push(c);
                proof {
                    assert(row_view(row@) =~= row_view(pre) + seq![cv]);
                    match parse_columns(input@, end as int, (512 - j - 1) as nat) {
                        Some(pr2) => {
                            assert(parse_columns(input@, cur as int, (512 - j) as nat) == Some((
                                seq![cv] + pr2.0,
                                pr2.1,
                            )));
                            assert(row_view(pre) + (seq![cv] + pr2.0) =~= row_view(row@) + pr2.0);
                        },
                        None => {
                            assert(parse_columns(input@, cur as int, (512 - j) as nat) is None);
                        },
                    }
                }
                cur = end;
                j = j + 1;
            },
        }
    }
    proof {
        assert(parse_columns(input@, cur as int, 0) == Some((
            Seq::<Seq<SpanV>>::empty(),
            cur as int,
        )));
        assert(row_view(row@) + Seq::<Seq<SpanV>>::empty() =~= row_view(row@));
    }
    Ok((row, cur))
}

/// Encode one row: each of its columns in order, appended to `out`.
fn write_row(row: &Vec<Column>, out: &mut Vec<u8>)
    ensures
        final(out)@ == old(out)@ + columns_bytes(row_view(row@)),
{
    let mut j: usize = 0;
    while j < row.len()
        invariant
            j <= row.len(),
            out@ == old(out)@ + columns_bytes(row_view(row@).take(j as int)),
        decreases row.len() - j,
    {
        row[j].write_to(out);
        proof {
            let cv = row_view(row@)[j as int];
            assert(cv == row@[j as int]@);
            assert(row_view(row@).take(j + 1) =~= row_view(row@).take(j as int) + seq![cv]);
            lemma_columns_bytes_concat(row_view(row@).take(j as int), seq![cv]);
            assert(seq![cv].drop_first() =~= Seq::<Seq<SpanV>>::empty());
            assert(seq![cv].len() == 1 && seq![cv][0] == cv);
            assert(columns_bytes(seq![cv]) == column_bytes(cv) + columns_bytes(
                seq![cv].drop_first(),
            ));
            assert(columns_bytes(seq![cv]) =~= column_bytes(cv));
            assert(out@ =~= old(out)@ + columns_bytes(row_view(row@).take(j + 1)));
        }
        j = j + 1;
    }
    proof {
        assert(row_view(row@).take(row_view(row@).len() as int) =~= row_view(row@));
    }
}

impl VXL {
    /// Decode a whole volume at `pos`: exactly 512 rows of exactly 512
    /// columns, in the fixed scan order, nothing else.
    pub fn read_from(input: &Vec<u8>, pos: usize) -> (r: Result<(VXL, usize), VxlError>)
        ensures
            match r {
                Ok((v, end)) => parse_rows(input@, pos as int, 512) == Some((v@, end as int))
                    && pos <= end <= input@.len() && vxl_wf(v@),
                Err(e) => parse_rows(input@, pos as int, 512) is None
                    && e == VxlError::UnexpectedEndOfInput,
            },
    {
        let mut cols: Vec<Vec<Column>> = Vec::new();
        let mut cur: usize = pos;
        let mut i: usize = 0;
        proof {
            match parse_rows(input@, pos as int, 512) {
                Some(pr) => {
                    assert(grid_view(cols@) =~= Seq::<Seq<Seq<SpanV>>>::empty());
                    assert(grid_view(cols@) + pr.0 =~= pr.0);
                },
                None => {},
            }
        }
        while i < 512
            invariant
                i <= 512,
                cols@.len() == i,
                pos <= cur,
                cur == pos || cur <= input@.len(),
                (match parse_rows(input@, cur as int, (512 - i) as nat) {
                    Some(pr) => parse_rows(input@, pos as int, 512) == Some((
                        grid_view(cols@) + pr.0,
                        pr.1,
                    )),
                    None => parse_rows(input@, pos as int, 512) is None,
                }),
            decreases 512 - i,
        {
            match read_row(input, cur) {
                Err(e) => {
                    proof {
                        assert(parse_rows(input@, cur as int, (512 - i) as nat) is None);
                    }
                    return Err(e);
                },
                Ok((row, end)) => {
                    let ghost pre = cols@;
                    let ghost rv = row_view(row@);
                    cols.push(row);
                    proof {
                        assert(grid_view(cols@) =~= grid_view(pre) + seq![rv]);
                        match parse_rows(input@, end as int, (512 - i - 1) as nat) {
                            Some(pr2) => {
                                assert(parse_rows(input@, cur as int, (512 - i) as nat) == Some((
                                    seq![rv] + pr2.0,
                                    pr2.1,
                                )));
                                assert(grid_view(pre) + (seq![rv] + pr2.0) =~= grid_view(cols@)
                                    + pr2.0);
                            },
                            None => {
                                assert(parse_rows(input@, cur as int, (512 - i) as nat) is None);
                            },
                        }
                    }
                    cur = end;
                    i = i + 1;
                },
            }
        }
        let v = VXL { cols };
        proof {
            assert(parse_rows(input@, cur as int, 0) == Some((
                Seq::<Seq<Seq<SpanV>>>::empty(),
                cur as int,
            )));
            assert(grid_view(cols@) + Seq::<Seq<Seq<SpanV>>>::empty() =~= grid_view(cols@));
            assert(parse_rows(input@, pos as int, 512) == Some((v@, cur as int)));
            lemma_parse_rows_bytes(input@, pos as int, 512, v@, cur as int);
        }
        Ok((v, cur))
    }

    /// Encode this volume: every column of every row in the fixed scan
    /// order, appended to `out`.
    pub fn write_to(&self, out: &mut Vec<u8>)
        ensures
            final(out)@ == old(out)@ + vxl_bytes(self@),
    {
        let mut i: usize = 0;
        while i < self.cols.len()
            invariant
                i <= self.cols.len(),
                out@ == old(out)@ + vxl_bytes(self@.take(i as int)),
            decreases self.cols.len() - i,
        {
            write_row(&self.cols[i], out);
            proof {
                let rv = self@[i as int];
                assert(rv == row_view(self.cols@[i as int]@));
                assert(self@.take(i + 1) =~= self@.take(i as int) + seq![rv]);
                lemma_vxl_bytes_concat(self@.take(i as int), seq![rv]);
                assert(seq![rv].drop_first() =~= Seq::<Seq<Seq<SpanV>>>::empty());
                assert(seq![rv].len() == 1 && seq![rv][0] == rv);
                assert(vxl_bytes(seq![rv]) == columns_bytes(rv) + vxl_bytes(seq![rv].drop_first()));
                assert(vxl_bytes(seq![rv]) =~= columns_bytes(rv));
                assert(out@ =~= old(out)@ + vxl_bytes(self@.take(i + 1)));
            }
            i = i + 1;
        }
        proof {
            assert(self@.take(self@.len() as int) =~= self@);
        }
    }
}

/// Law: a volume decoded from a byte stream re-encodes to exactly that
/// stream, and is well formed: 512 x 512 columns, each ending in its one
/// terminal span, each span carrying exactly the implied color count.
pub proof fn lemma_decode_then_encode(b: Seq<u8>, v: Seq<Seq<Seq<SpanV>>>, end: int)
    requires
        parse_rows(b, 0, 512) == Some((v, end)),
        end == b.len(),
    ensures
        vxl_wf(v),
        vxl_bytes(v) == b,
{
    lemma_parse_rows_bytes(b, 0, 512, v, end);
    assert(b.subrange(0, b.len() as int) =~= b);
}

/// Law: decoding the encoding of any well-formed volume succeeds,
/// consumes exactly the encoded bytes, and yields that volume back,
/// structurally equal across all columns, spans, headers and colors.
pub proof fn lemma_encode_then_decode(v: Seq<Seq<Seq<SpanV>>>)
    requires
        vxl_wf(v),
    ensures
        parse_rows(vxl_bytes(v), 0, 512) == Some((v, vxl_bytes(v).len() as int)),
{
    let b = vxl_bytes(v);
    assert(b.subrange(0, b.len() as int) =~= b);
    lemma_rows_bytes_parse(b, 0, v);
}

} // verus!
