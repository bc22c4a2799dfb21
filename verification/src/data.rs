//! Data model of the voxel-volume format: colors, span headers, spans,
//! sentinel-terminated columns and the fixed 512 x 512 grid, together with
//! the derived geometric quantities of each span (all 8-bit modular).
use vstd::prelude::*;

verus! {

/// Error returned by the decoder when the byte stream ends before a
/// header or a color run is complete.
#[derive(Clone, Copy, PartialEq, Eq, Structural, Debug)]
pub enum VxlError {
    UnexpectedEndOfInput,
}

/// A 4-byte pixel, stored in the order B, G, R, A.
#[derive(Clone, Copy, PartialEq, Eq, Structural, Debug)]
pub struct BGRAColor {
    pub b: u8,
    pub g: u8,
    pub r: u8,
    pub a: u8,
}

/// The 4-byte record that opens every span: `length` (N), the first and
/// last heights of the top colored run (S and E), and the first height of
/// the air gap below it (A). N = 0 marks the column's terminal span.
#[derive(Clone, Copy, PartialEq, Eq, Structural, Debug)]
pub struct SpanHeader {
    pub length: u8,
    pub starting_height_tcr: u8,
    pub ending_height_tcr: u8,
    pub starting_height_air: u8,
}

/// K: the length of the top colored run, E - S + 1 modulo 256.
pub open spec fn spec_k(h: SpanHeader) -> u8 {
    h.ending_height_tcr.wrapping_sub(h.starting_height_tcr).wrapping_add(1)
}

/// Z: the length of the bottom colored run, (N - 1) - K modulo 256.
pub open spec fn spec_z(h: SpanHeader) -> u8 {
    h.length.wrapping_sub(1).wrapping_sub(spec_k(h))
}

/// How many colors the wire format stores after this header: N - 1 for a
/// non-terminal span, K for a terminal one.
pub open spec fn spec_color_count(h: SpanHeader) -> nat {
    if h.length == 0 {
        spec_k(h) as nat
    } else {
        (h.length - 1) as nat
    }
}

impl SpanHeader {
    /// K: the length of the top colored run.
    pub fn get_k(&self) -> (r: u8)
        ensures
            r == spec_k(*self),
    {
        self.ending_height_tcr.wrapping_sub(self.starting_height_tcr).wrapping_add(1)
    }

    /// Z: the length of the bottom colored run of a non-terminal span.
    pub fn get_z(&self) -> (r: u8)
        ensures
            r == spec_z(*self),
    {
        self.length.wrapping_sub(1).wrapping_sub(self.get_k())
    }

    /// The first height below the top colored run, E + 1 modulo 256.
    pub fn starting_height_solid(&self) -> (r: u8)
        ensures
            r == self.ending_height_tcr.wrapping_add(1),
    {
        self.ending_height_tcr.wrapping_add(1)
    }

    /// The top height of the air gap, S - 1 modulo 256.
    pub fn ending_height_air(&self) -> (r: u8)
        ensures
            r == self.starting_height_tcr.wrapping_sub(1),
    {
        self.starting_height_tcr.wrapping_sub(1)
    }

    /// The number of air cells below the run, S - A modulo 256.
    pub fn length_air(&self) -> (r: u8)
        ensures
            r == self.starting_height_tcr.wrapping_sub(self.starting_height_air),
    {
        self.starting_height_tcr.wrapping_sub(self.starting_height_air)
    }

    /// The length of the top colored run, another name for K.
    pub fn length_tcr(&self) -> (r: u8)
        ensures
            r == spec_k(*self),
    {
        self.get_k()
    }

    /// The length of the bottom colored run, another name for Z.
    pub fn length_bcr(&self) -> (r: u8)
        ensures
            r == spec_z(*self),
    {
        self.get_z()
    }
}

/// A span as classified once at decode time: the terminal span closing a
/// column, or an ordinary span with more records after it.
pub enum Run {
    LastSpan { header: SpanHeader },
    Span { header: SpanHeader },
}

impl Run {
    /// The record size in units of 4-byte cells, header included:
    /// 1 + K for a terminal span, N for a non-terminal one (modulo 256).
    pub fn size(&self) -> (r: u8)
        ensures
            r == (match *self {
                Run::LastSpan { header } => spec_k(header).wrapping_add(1),
                Run::Span { header } => header.length,
            }),
    {
        match self {
            Run::LastSpan { header } => header.get_k().wrapping_add(1),
            Run::Span { header } => header.length,
        }
    }
}

/// Mathematical model of a span: its header and the stored colors.
#[verifier::ext_equal]
pub struct SpanV {
    pub header: SpanHeader,
    pub colors: Seq<BGRAColor>,
}

/// A span: a header followed by its run of stored colors.
#[derive(Debug)]
pub struct Span {
    pub header: SpanHeader,
    pub colors: Vec<BGRAColor>,
}

impl View for Span {
    type V = SpanV;

    open spec fn view(&self) -> SpanV {
        SpanV { header: self.header, colors: self.colors@ }
    }
}

/// A span is well formed when it stores exactly the number of colors its
/// header implies.
pub open spec fn span_wf(s: SpanV) -> bool {
    s.colors.len() == spec_color_count(s.header)
}

impl Span {
    /// The checked constructor: accepts the pair only when the color count
    /// matches what the header implies, so that no structurally invalid
    /// span can reach the encoder.
    pub fn new(header: SpanHeader, colors: Vec<BGRAColor>) -> (r: Option<Span>)
        ensures
            match r {
                Some(s) => s@ == (SpanV { header, colors: colors@ }) && span_wf(s@),
                None => colors@.len() != spec_color_count(header),
            },
    {
        let count: usize = if header.length == 0 {
            header.get_k() as usize
        } else {
            (header.length - 1) as usize
        };
        if colors.len() == count {
            Some(Span { header, colors })
        } else {
            None
        }
    }
}

/// A column is well formed when it ends in exactly one terminal span: at
/// least one span, every span well formed, the last one terminal and all
/// earlier ones non-terminal.
pub open spec fn column_wf(c: Seq<SpanV>) -> bool {
    &&& c.len() >= 1
    &&& (forall|i: int| 0 <= i < c.len() ==> span_wf(#[trigger] c[i]))
    &&& c[c.len() - 1].header.length == 0
    &&& (forall|i: int| 0 <= i < c.len() - 1 ==> (#[trigger] c[i]).header.length != 0)
}

/// One cell of a column, by height: open air, an explicitly stored color
/// from a colored run, or an interior cell whose color is assigned by the
/// surface-voxel convention rather than stored in the stream.
#[derive(Clone, Copy, PartialEq, Eq, Structural, Debug)]
pub enum Voxel {
    Open,
    Colored { color: BGRAColor },
    Solid { color: BGRAColor },
}

/// A vertical stack of spans ending in the terminal span.
#[derive(Debug)]
pub struct Column {
    pub data: Vec<Span>,
}

/// The model of a sequence of spans: each span's view, in order.
pub open spec fn spans_view(v: Seq<Span>) -> Seq<SpanV> {
    v.map_values(|s: Span| s@)
}

impl View for Column {
    type V = Seq<SpanV>;

    open spec fn view(&self) -> Seq<SpanV> {
        spans_view(self.data@)
    }
}

/// m(i): the upper boundary of span i's lower region: the grid height 64
/// for the terminal span, else the air start of span i + 1.
pub open spec fn spec_m(c: Seq<SpanV>, i: int) -> Option<u8> {
    if 0 <= i < c.len() {
        if c[i].header.length == 0 {
            Some(64u8)
        } else if i + 1 < c.len() {
            Some(c[i + 1].header.starting_height_air)
        } else {
            None
        }
    } else {
        None
    }
}

impl Column {
    /// m(i), the cross-span upper boundary for span `current_span_idx`.
    pub fn get_m(&self, current_span_idx: usize) -> (r: Option<u8>)
        ensures
            r == spec_m(self@, current_span_idx as int),
    {
        if current_span_idx >= self.data.len() {
            return None;
        }
        if self.data[current_span_idx].header.length == 0 {
            return Some(64);
        }
        if current_span_idx + 1 >= self.data.len() {
            return None;
        }
        Some(self.data[current_span_idx + 1].header.starting_height_air)
    }

    /// The first height of span i's bottom colored run, m(i) - Z(i).
    pub fn starting_height_bcr(&self, current_span_idx: usize) -> (r: Option<u8>)
        ensures
            r == (match spec_m(self@, current_span_idx as int) {
                Some(m) => Some(m.wrapping_sub(spec_z(self@[current_span_idx as int].header))),
                None => None::<u8>,
            }),
    {
        if current_span_idx >= self.data.len() {
            return None;
        }
        let z = self.data[current_span_idx].header.get_z();
        match self.get_m(current_span_idx) {
            Some(m) => Some(m.wrapping_sub(z)),
            None => None,
        }
    }

    /// The number of interior cells of span i,
    /// m(i) - Z(i) - starting_height_solid(i).
    pub fn length_solid(&self, current_span_idx: usize) -> (r: Option<u8>)
        ensures
            r == (match spec_m(self@, current_span_idx as int) {
                Some(m) => Some(m.wrapping_sub(spec_z(self@[current_span_idx as int].header))
                    .wrapping_sub(self@[current_span_idx as int].header.ending_height_tcr
                    .wrapping_add(1))),
                None => None::<u8>,
            }),
    {
        if current_span_idx >= self.data.len() {
            return None;
        }
        let h = self.data[current_span_idx].header;
        match self.get_m(current_span_idx) {
            Some(m) => Some(m.wrapping_sub(h.get_z()).wrapping_sub(h.starting_height_solid())),
            None => None,
        }
    }

    /// The height just above span i's lower region, m(i) + 1.
    pub fn ending_height_bcr(&self, current_span_idx: usize) -> (r: Option<u8>)
        ensures
            r == (match spec_m(self@, current_span_idx as int) {
                Some(m) => Some(m.wrapping_add(1)),
                None => None::<u8>,
            }),
    {
        match self.get_m(current_span_idx) {
            Some(m) => Some(m.wrapping_add(1)),
            None => None,
        }
    }

    /// The last interior height of span i, m(i) - Z(i) - 1.
    pub fn ending_height_solid(&self, current_span_idx: usize) -> (r: Option<u8>)
        ensures
            r == (match spec_m(self@, current_span_idx as int) {
                Some(m) => Some(m.wrapping_sub(spec_z(self@[current_span_idx as int].header))
                    .wrapping_sub(1)),
                None => None::<u8>,
            }),
    {
        if current_span_idx >= self.data.len() {
            return None;
        }
        let z = self.data[current_span_idx].header.get_z();
        match self.get_m(current_span_idx) {
            Some(m) => Some(m.wrapping_sub(z).wrapping_sub(1)),
            None => None,
        }
    }
}

/// A volume is well formed when it is exactly 512 rows of exactly 512
/// well-formed columns.
pub open spec fn vxl_wf(v: Seq<Seq<Seq<SpanV>>>) -> bool {
    &&& v.len() == 512
    &&& (forall|i: int| 0 <= i < v.len() ==> (#[trigger] v[i]).len() == 512)
    &&& (forall|i: int, j: int|
        0 <= i < v.len() && 0 <= j < v[i].len() ==> column_wf(#[trigger] v[i][j]))
}

/// The fixed 512 x 512 grid of columns, in outer-then-inner scan order.
#[derive(Debug)]
pub struct VXL {
    pub cols: Vec<Vec<Column>>,
}

/// The model of one row of columns: each column's view, in order.
pub open spec fn row_view(r: Seq<Column>) -> Seq<Seq<SpanV>> {
    r.map_values(|c: Column| c@)
}

/// The model of the whole grid: each row's view, in order.
pub open spec fn grid_view(g: Seq<Vec<Column>>) -> Seq<Seq<Seq<SpanV>>> {
    g.map_values(|r: Vec<Column>| row_view(r@))
}

impl View for VXL {
    type V = Seq<Seq<Seq<SpanV>>>;

    open spec fn view(&self) -> Seq<Seq<Seq<SpanV>>> {
        grid_view(self.cols@)
    }
}

} // verus!
