use vstd::prelude::*;
use vstd::string::*;

use crate::string::{
    decimal_text, is_float_text, is_plain, lemma_float_text_plain, lemma_trim_after_space,
    lemma_trim_keeps, lemma_u8_text_round_trip, str_as_coord, str_as_u8, trim_spec, trim_ws,
    u8_of_text,
};

verus! {

/// The index of the first `sep` in `s`, or its length when there is none.
pub open spec fn sep_index(s: Seq<char>, sep: char) -> int
    decreases s.len(),
{
    if s.len() == 0 {
        0
    } else if s[0] == sep {
        0
    } else {
        1 + sep_index(s.drop_first(), sep)
    }
}

/// `s` cut at each `sep` into at most `n` pieces: the last piece keeps the
/// separators that follow the first `n - 1`.
pub open spec fn split_n(s: Seq<char>, sep: char, n: nat) -> Seq<Seq<char>>
    decreases n,
{
    let k = sep_index(s, sep);
    if n <= 1 || k == s.len() {
        seq![s]
    } else {
        seq![s.take(k)] + split_n(s.skip(k + 1), sep, (n - 1) as nat)
    }
}

pub proof fn lemma_sep_index(s: Seq<char>, sep: char, i: int)
    requires
        0 <= i <= s.len(),
        forall|j: int| 0 <= j < i ==> #[trigger] s[j] != sep,
        i < s.len() ==> s[i] == sep,
    ensures
        sep_index(s, sep) == i,
    decreases i,
{
    if i > 0 {
        assert forall|j: int| 0 <= j < i - 1 implies #[trigger] s.drop_first()[j] != sep by {
            assert(s[j + 1] != sep);
        }
        lemma_sep_index(s.drop_first(), sep, i - 1);
    }
}

/// The index of the first `sep` in `s` at or after `from`, or the length of `s`.
fn find_sep(s: &str, from: usize, sep: char) -> (k: usize)
    requires
        from <= s@.len(),
    ensures
        from <= k <= s@.len(),
        forall|j: int| from <= j < k ==> #[trigger] s@[j] != sep,
        k < s@.len() ==> s@[k as int] == sep,
{
    let n = s.unicode_len();
    let mut k = from;
    while k < n
        invariant
            n == s@.len(),
            from <= k <= n,
            forall|j: int| from <= j < k ==> #[trigger] s@[j] != sep,
        decreases n - k,
    {
        if s.get_char(k) == sep {
            return k;
        }
        k = k + 1;
    }
    k
}

/// Cuts `s` at each `sep` into at most `n` fields.
pub fn split_fields(s: &str, sep: char, n: usize) -> (r: Vec<String>)
    requires
        n >= 1,
    ensures
        r@.len() == split_n(s@, sep, n as nat).len(),
        forall|i: int| 0 <= i < r@.len() ==> #[trigger] r@[i]@ == split_n(s@, sep, n as nat)[i],
{
    let len = s.unicode_len();
    let mut r: Vec<String> = Vec::new();
    let mut start: usize = 0;
    let ghost whole = split_n(s@, sep, n as nat);
    let ghost mut done: Seq<Seq<char>> = seq![];
    assert(s@.skip(0) =~= s@);
    loop
        invariant
            len == s@.len(),
            start <= len,
            r@.len() < n,
            done.len() == r@.len(),
            forall|i: int| 0 <= i < r@.len() ==> #[trigger] r@[i]@ == done[i],
            whole == split_n(s@, sep, n as nat),
            whole == done + split_n(s@.skip(start as int), sep, (n - r@.len()) as nat),
        decreases len - start,
    {
        let ghost rest = s@.skip(start as int);
        let ghost m = (n - r@.len()) as nat;
        let k = find_sep(s, start, sep);
        proof {
            assert forall|j: int| 0 <= j < k - start implies #[trigger] rest[j] != sep by {
                assert(s@[start + j] != sep);
            }
            lemma_sep_index(rest, sep, k - start);
        }
        if r.len() + 1 == n || k == len {
            let piece = String::from_str(s.substring_char(start, len));
            assert(piece@ =~= rest);
            r.push(piece);
            proof {
                assert(whole =~= done.push(rest));
            }
            return r;
        }
        let piece = String::from_str(s.substring_char(start, k));
        assert(piece@ =~= rest.take(k - start));
        assert(rest.skip(k - start + 1) =~= s@.skip(k + 1));
        r.push(piece);
        proof {
            let next = split_n(s@.skip(k + 1), sep, (m - 1) as nat);
            assert(whole =~= done.push(piece@) + next);
            done = done.push(piece@);
        }
        start = k + 1;
    }
}

/// What a label holds: coordinates as their decimal text, color channels and
/// size as the integers 0..=255 read from the row, and the label's text.
pub struct LabelView {
    pub x: Seq<char>,
    pub y: Seq<char>,
    pub z: Seq<char>,
    pub r: u8,
    pub g: u8,
    pub b: u8,
    pub size: u8,
    pub text: Seq<char>,
}

/// What a line segment holds: both endpoints' coordinates as decimal text and
/// the color channels as the integers 0..=255 read from the row.
pub struct LineView {
    pub x1: Seq<char>,
    pub y1: Seq<char>,
    pub z1: Seq<char>,
    pub x2: Seq<char>,
    pub y2: Seq<char>,
    pub z2: Seq<char>,
    pub r: u8,
    pub g: u8,
    pub b: u8,
}

/// A text annotation placed on the map.
///
/// A coordinate is kept as the text of a valid floating-point number; a color
/// channel is the integer `v` that stands for the intensity `v / 255`.
#[derive(Debug, PartialEq, Clone)]
pub struct MapLabel {
    pub x: String,
    pub y: String,
    pub z: String,
    pub r: u8,
    pub g: u8,
    pub b: u8,
    pub size: u8,
    pub text: String,
}

/// A colored segment between two points.
#[derive(Debug, PartialEq, Clone)]
pub struct MapLine {
    pub x1: String,
    pub y1: String,
    pub z1: String,
    pub x2: String,
    pub y2: String,
    pub z2: String,
    pub r: u8,
    pub g: u8,
    pub b: u8,
}

impl View for MapLabel {
    type V = LabelView;

    open spec fn view(&self) -> LabelView {
        LabelView {
            x: self.x@,
            y: self.y@,
            z: self.z@,
            r: self.r,
            g: self.g,
            b: self.b,
            size: self.size,
            text: self.text@,
        }
    }
}

impl View for MapLine {
    type V = LineView;

    open spec fn view(&self) -> LineView {
        LineView {
            x1: self.x1@,
            y1: self.y1@,
            z1: self.z1@,
            x2: self.x2@,
            y2: self.y2@,
            z2: self.z2@,
            r: self.r,
            g: self.g,
            b: self.b,
        }
    }
}

/// The field holds a floating-point number.
pub open spec fn coord_ok(f: Seq<char>) -> bool {
    is_float_text(trim_spec(f))
}

/// The field holds an integer in [0, 255].
pub open spec fn byte_ok(f: Seq<char>) -> bool {
    u8_of_text(trim_spec(f)).is_some()
}

pub open spec fn byte_of(f: Seq<char>) -> u8 {
    u8_of_text(trim_spec(f)).unwrap()
}

/// The label that the body of a `P` row (the text after its prefix) describes:
/// `x, y, z, r, g, b, size, text`, where `text` may itself hold commas.
pub open spec fn label_of(s: Seq<char>) -> Option<LabelView> {
    let f = split_n(s, ',', 8);
    if f.len() == 8 && coord_ok(f[0]) && coord_ok(f[1]) && coord_ok(f[2]) && byte_ok(f[3])
        && byte_ok(f[4]) && byte_ok(f[5]) && byte_ok(f[6]) {
        Some(
            LabelView {
                x: trim_spec(f[0]),
                y: trim_spec(f[1]),
                z: trim_spec(f[2]),
                r: byte_of(f[3]),
                g: byte_of(f[4]),
                b: byte_of(f[5]),
                size: byte_of(f[6]),
                text: trim_spec(f[7]),
            },
        )
    } else {
        None
    }
}

/// The segment that the body of an `L` row describes:
/// `x1, y1, z1, x2, y2, z2, r, g, b`.
pub open spec fn line_of(s: Seq<char>) -> Option<LineView> {
    let f = split_n(s, ',', 9);
    if f.len() == 9 && coord_ok(f[0]) && coord_ok(f[1]) && coord_ok(f[2]) && coord_ok(f[3])
        && coord_ok(f[4]) && coord_ok(f[5]) && byte_ok(f[6]) && byte_ok(f[7]) && byte_ok(f[8]) {
        Some(
            LineView {
                x1: trim_spec(f[0]),
                y1: trim_spec(f[1]),
                z1: trim_spec(f[2]),
                x2: trim_spec(f[3]),
                y2: trim_spec(f[4]),
                z2: trim_spec(f[5]),
                r: byte_of(f[6]),
                g: byte_of(f[7]),
                b: byte_of(f[8]),
            },
        )
    } else {
        None
    }
}

/// Parses the body of a label row; `None` when it is malformed.
pub fn parse_eqmap_label(s: &str) -> (r: Option<MapLabel>)
    ensures
        r.is_some() == label_of(s@).is_some(),
        r.is_some() ==> r.unwrap()@ == label_of(s@).unwrap(),
{
    let f = split_fields(s, ',', 8);
    if f.len() != 8 {
        return None;
    }
    let x = match str_as_coord(f[0].as_str()) {
        Some(v) => v,
        None => return None,
    };
    let y = match str_as_coord(f[1].as_str()) {
        Some(v) => v,
        None => return None,
    };
    let z = match str_as_coord(f[2].as_str()) {
        Some(v) => v,
        None => return None,
    };
    let r = match str_as_u8(f[3].as_str()) {
        Some(v) => v,
        None => return None,
    };
    let g = match str_as_u8(f[4].as_str()) {
        Some(v) => v,
        None => return None,
    };
    let b = match str_as_u8(f[5].as_str()) {
        Some(v) => v,
        None => return None,
    };
    let size = match str_as_u8(f[6].as_str()) {
        Some(v) => v,
        None => return None,
    };
    let text = String::from_str(trim_ws(f[7].as_str()));
    Some(MapLabel { x, y, z, r, g, b, size, text })
}

/// Parses the body of a line row; `None` when it is malformed.
pub fn parse_eqmap_line(s: &str) -> (r: Option<MapLine>)
    ensures
        r.is_some() == line_of(s@).is_some(),
        r.is_some() ==> r.unwrap()@ == line_of(s@).unwrap(),
{
    let f = split_fields(s, ',', 9);
    if f.len() != 9 {
        return None;
    }
    let x1 = match str_as_coord(f[0].as_str()) {
        Some(v) => v,
        None => return None,
    };
    let y1 = match str_as_coord(f[1].as_str()) {
        Some(v) => v,
        None => return None,
    };
    let z1 = match str_as_coord(f[2].as_str()) {
        Some(v) => v,
        None => return None,
    };
    let x2 = match str_as_coord(f[3].as_str()) {
        Some(v) => v,
        None => return None,
    };
    let y2 = match str_as_coord(f[4].as_str()) {
        Some(v) => v,
        None => return None,
    };
    let z2 = match str_as_coord(f[5].as_str()) {
        Some(v) => v,
        None => return None,
    };
    let r = match str_as_u8(f[6].as_str()) {
        Some(v) => v,
        None => return None,
    };
    let g = match str_as_u8(f[7].as_str()) {
        Some(v) => v,
        None => return None,
    };
    let b = match str_as_u8(f[8].as_str()) {
        Some(v) => v,
        None => return None,
    };
    Some(MapLine { x1, y1, z1, x2, y2, z2, r, g, b })
}

/// Why a row of a map file was skipped.
#[derive(Debug, PartialEq, Eq, Clone, Copy)]
pub enum RowError {
    /// A `P` row whose body is not a well-formed label.
    InvalidLabel,
    /// An `L` row whose body is not a well-formed line segment.
    InvalidLine,
    /// A row that starts with neither `P ` nor `L `.
    Unhandled,
}

/// A row that produced nothing, with the layer it belongs to and the reason.
#[derive(Debug, PartialEq, Clone)]
pub struct SkippedRow {
    pub layer: usize,
    pub line: String,
    pub error: RowError,
}

impl View for SkippedRow {
    type V = (usize, Seq<char>, RowError);

    open spec fn view(&self) -> (usize, Seq<char>, RowError) {
        (self.layer, self.line@, self.error)
    }
}

/// The row starts with the directive letter `c` followed by a space.
pub open spec fn has_prefix(s: Seq<char>, c: char) -> bool {
    s.len() >= 2 && s[0] == c && s[1] == ' '
}

/// The label that row `s` holds, if any.
pub open spec fn row_label(s: Seq<char>) -> Option<LabelView> {
    if has_prefix(s, 'P') {
        label_of(s.skip(2))
    } else {
        None
    }
}

/// The line segment that row `s` holds, if any.
pub open spec fn row_line(s: Seq<char>) -> Option<LineView> {
    if has_prefix(s, 'L') {
        line_of(s.skip(2))
    } else {
        None
    }
}

/// Why row `s` is skipped, or `None` when it yields a label or a segment.
pub open spec fn row_error(s: Seq<char>) -> Option<RowError> {
    if has_prefix(s, 'P') {
        if label_of(s.skip(2)).is_some() {
            None
        } else {
            Some(RowError::InvalidLabel)
        }
    } else if has_prefix(s, 'L') {
        if line_of(s.skip(2)).is_some() {
            None
        } else {
            Some(RowError::InvalidLine)
        }
    } else {
        Some(RowError::Unhandled)
    }
}

pub open spec fn opt_seq<A>(o: Option<A>) -> Seq<A> {
    match o {
        Some(a) => seq![a],
        None => seq![],
    }
}

/// A line of text without one trailing carriage return.
pub open spec fn strip_cr(l: Seq<char>) -> Seq<char> {
    if l.len() > 0 && l.last() == '\r' {
        l.drop_last()
    } else {
        l
    }
}

/// The rows of a file's text: the text is cut at each `\n`, a final empty
/// piece (after a last line ending, or of an empty text) is dropped, and each
/// row loses a trailing `\r`.
pub open spec fn rows_of(text: Seq<char>) -> Seq<Seq<char>> {
    let p = split_n(text, '\n', (text.len() + 1) as nat);
    let q = if p.len() > 0 && p.last().len() == 0 {
        p.drop_last()
    } else {
        p
    };
    q.map_values(|l: Seq<char>| strip_cr(l))
}

/// The labels of `rows`, in row order.
pub open spec fn labels_of_rows(rows: Seq<Seq<char>>) -> Seq<LabelView>
    decreases rows.len(),
{
    if rows.len() == 0 {
        seq![]
    } else {
        labels_of_rows(rows.drop_last()) + opt_seq(row_label(rows.last()))
    }
}

/// The line segments of `rows`, in row order.
pub open spec fn lines_of_rows(rows: Seq<Seq<char>>) -> Seq<LineView>
    decreases rows.len(),
{
    if rows.len() == 0 {
        seq![]
    } else {
        lines_of_rows(rows.drop_last()) + opt_seq(row_line(rows.last()))
    }
}

/// The rows of layer `id` that are skipped, in row order.
pub open spec fn skips_of_rows(id: usize, rows: Seq<Seq<char>>) -> Seq<(usize, Seq<char>, RowError)>
    decreases rows.len(),
{
    if rows.len() == 0 {
        seq![]
    } else {
        skips_of_rows(id, rows.drop_last()) + match row_error(rows.last()) {
            Some(e) => seq![(id, rows.last(), e)],
            None => seq![],
        }
    }
}

/// Relies on `str::split` with a `char` pattern: the pieces of `s` between
/// successive occurrences of `sep`, in order, empty pieces included.
#[verifier::external_body]
fn split_all<'a>(s: &'a str, sep: char) -> (r: Vec<&'a str>)
    ensures
        r@.len() == split_n(s@, sep, (s@.len() + 1) as nat).len(),
        forall|i: int|
            0 <= i < r@.len() ==> #[trigger] r@[i]@ == split_n(s@, sep, (s@.len() + 1) as nat)[i],
{
    s.split(sep).collect()
}

fn strip_cr_str(l: &str) -> (r: &str)
    ensures
        r@ == strip_cr(l@),
{
    let n = l.unicode_len();
    if n > 0 && l.get_char(n - 1) == '\r' {
        let r = l.substring_char(0, n - 1);
        assert(r@ =~= l@.drop_last());
        r
    } else {
        l
    }
}

/// What a layer holds: its id and its labels and segments in row order.
pub struct LayerView {
    pub id: usize,
    pub labels: Seq<LabelView>,
    pub lines: Seq<LineView>,
}

/// The layer with id `id` read from the text of its file.
pub open spec fn layer_of(id: usize, text: Seq<char>) -> LayerView {
    LayerView {
        id,
        labels: labels_of_rows(rows_of(text)),
        lines: lines_of_rows(rows_of(text)),
    }
}

/// One layer of a map: 0 is the base layer, 1 to 3 are overlays.
#[derive(Debug)]
pub struct MapLayer {
    pub id: usize,
    pub labels: Vec<MapLabel>,
    pub lines: Vec<MapLine>,
}

impl View for MapLayer {
    type V = LayerView;

    open spec fn view(&self) -> LayerView {
        LayerView {
            id: self.id,
            labels: self.labels@.map_values(|l: MapLabel| l@),
            lines: self.lines@.map_values(|l: MapLine| l@),
        }
    }
}

impl MapLayer {
    pub fn default() -> (r: Self)
        ensures
            r@ == (LayerView { id: 0, labels: seq![], lines: seq![] }),
    {
        let r = MapLayer { id: 0, labels: Vec::new(), lines: Vec::new() };
        assert(r@.labels =~= seq![]);
        assert(r@.lines =~= seq![]);
        r
    }

    /// Reads one row of a map file into the layer: a `P ` row adds a label,
    /// an `L ` row a segment; any other row, or a malformed one, adds nothing
    /// and is reported in the result.
    pub fn parse_row(&mut self, s: &str) -> (r: Option<RowError>)
        ensures
            r == row_error(s@),
            final(self)@ == (LayerView {
                id: old(self)@.id,
                labels: old(self)@.labels + opt_seq(row_label(s@)),
                lines: old(self)@.lines + opt_seq(row_line(s@)),
            }),
    {
        let n = s.unicode_len();
        let mut kind = ' ';
        if n >= 2 && s.get_char(1) == ' ' {
            kind = s.get_char(0);
        }
        if kind == 'P' {
            let body = s.substring_char(2, n);
            assert(body@ =~= s@.skip(2));
            match parse_eqmap_label(body) {
                Some(label) => {
                    self.labels.push(label);
                    assert(self@.labels =~= old(self)@.labels + opt_seq(row_label(s@)));
                    assert(self@.lines =~= old(self)@.lines + opt_seq(row_line(s@)));
                    None
                },
                None => {
                    assert(self@.labels =~= old(self)@.labels + opt_seq(row_label(s@)));
                    assert(self@.lines =~= old(self)@.lines + opt_seq(row_line(s@)));
                    Some(RowError::InvalidLabel)
                },
            }
        } else if kind == 'L' {
            let body = s.substring_char(2, n);
            assert(body@ =~= s@.skip(2));
            match parse_eqmap_line(body) {
                Some(line) => {
                    self.lines.push(line);
                    assert(self@.labels =~= old(self)@.labels + opt_seq(row_label(s@)));
                    assert(self@.lines =~= old(self)@.lines + opt_seq(row_line(s@)));
                    None
                },
                None => {
                    assert(self@.labels =~= old(self)@.labels + opt_seq(row_label(s@)));
                    assert(self@.lines =~= old(self)@.lines + opt_seq(row_line(s@)));
                    Some(RowError::InvalidLine)
                },
            }
        } else {
            assert(self@.labels =~= old(self)@.labels + opt_seq(row_label(s@)));
            assert(self@.lines =~= old(self)@.lines + opt_seq(row_line(s@)));
            Some(RowError::Unhandled)
        }
    }

    /// Builds layer `id` from the whole text of its file, row by row; also
    /// gives back the rows that were skipped.
    pub fn from_text(id: usize, text: &str) -> (r: (MapLayer, Vec<SkippedRow>))
        ensures
            r.0@ == layer_of(id, text@),
            r.1@.map_values(|k: SkippedRow| k@) == skips_of_rows(id, rows_of(text@)),
    {
        let pieces = split_all(text, '\n');
        let ghost p = split_n(text@, '\n', (text@.len() + 1) as nat);
        let mut count = pieces.len();
        if count > 0 && pieces[count - 1].unicode_len() == 0 {
            count = count - 1;
        }
        let ghost rows = rows_of(text@);
        assert(rows.len() == count);
        let mut layer = MapLayer::default();
        layer.id = id;
        let mut skipped: Vec<SkippedRow> = Vec::new();
        let mut i: usize = 0;
        assert(rows.take(0) =~= seq![]);
        assert(skipped@.map_values(|k: SkippedRow| k@) =~= seq![]);
        while i < count
            invariant
                count <= pieces@.len(),
                count == rows.len(),
                rows == rows_of(text@),
                pieces@.len() == p.len(),
                forall|j: int| 0 <= j < pieces@.len() ==> #[trigger] pieces@[j]@ == p[j],
                forall|j: int| 0 <= j < count ==> #[trigger] rows[j] == strip_cr(p[j]),
                i <= count,
                layer@ == (LayerView {
                    id,
                    labels: labels_of_rows(rows.take(i as int)),
                    lines: lines_of_rows(rows.take(i as int)),
                }),
                skipped@.map_values(|k: SkippedRow| k@) == skips_of_rows(id, rows.take(i as int)),
            decreases count - i,
        {
            let row = strip_cr_str(pieces[i]);
            assert(rows.take(i + 1).drop_last() =~= rows.take(i as int));
            let e = layer.parse_row(row);
            if let Some(error) = e {
                skipped.push(SkippedRow { layer: id, line: String::from_str(row), error });
            }
            assert(skipped@.map_values(|k: SkippedRow| k@) =~= skips_of_rows(id, rows.take(i + 1)));
            i = i + 1;
        }
        assert(rows.take(count as int) =~= rows);
        (layer, skipped)
    }
}

/// The layers that the texts of the layer files give, in ascending id order:
/// `c[i]` is the text of layer `i`'s file, or `None` when it could not be read.
pub open spec fn layers_of(c: Seq<Option<Seq<char>>>) -> Seq<LayerView>
    decreases c.len(),
{
    if c.len() == 0 {
        seq![]
    } else {
        layers_of(c.drop_last()) + match c.last() {
            Some(t) => seq![layer_of((c.len() - 1) as usize, t)],
            None => seq![],
        }
    }
}

/// The rows skipped over all the layers that `c` gives, layer by layer.
pub open spec fn skips_of(c: Seq<Option<Seq<char>>>) -> Seq<(usize, Seq<char>, RowError)>
    decreases c.len(),
{
    if c.len() == 0 {
        seq![]
    } else {
        skips_of(c.drop_last()) + match c.last() {
            Some(t) => skips_of_rows((c.len() - 1) as usize, rows_of(t)),
            None => seq![],
        }
    }
}

/// A map: the layers that were loaded, in ascending id order.
#[derive(Debug)]
pub struct EqMap {
    pub layers: Vec<MapLayer>,
}

impl View for EqMap {
    type V = Seq<LayerView>;

    open spec fn view(&self) -> Seq<LayerView> {
        self.layers@.map_values(|l: MapLayer| l@)
    }
}

impl EqMap {
    pub fn default() -> (r: Self)
        ensures
            r@ == Seq::<LayerView>::empty(),
    {
        let r = EqMap { layers: Vec::new() };
        assert(r@ =~= Seq::<LayerView>::empty());
        r
    }

    /// Adds layer `layer_id` read from the text of its file; a file that
    /// could not be read (`None`) adds no layer. Gives back the skipped rows.
    pub fn read_layer(&mut self, layer_id: usize, contents: Option<&str>) -> (skipped: Vec<
        SkippedRow,
    >)
        ensures
            final(self)@ == old(self)@ + match contents {
                Some(t) => seq![layer_of(layer_id, t@)],
                None => seq![],
            },
            skipped@.map_values(|k: SkippedRow| k@) == match contents {
                Some(t) => skips_of_rows(layer_id, rows_of(t@)),
                None => seq![],
            },
    {
        match contents {
            Some(t) => {
                let (layer, skipped) = MapLayer::from_text(layer_id, t);
                self.layers.push(layer);
                assert(self@ =~= old(self)@ + seq![layer_of(layer_id, t@)]);
                skipped
            },
            None => {
                let skipped: Vec<SkippedRow> = Vec::new();
                assert(self@ =~= old(self)@ + seq![]);
                assert(skipped@.map_values(|k: SkippedRow| k@) =~= seq![]);
                skipped
            },
        }
    }

    /// Builds the map from the texts of its layer files: `contents[i]` is the
    /// text of layer `i`'s file, or `None` when it does not exist or could not
    /// be read. Gives back the skipped rows of all layers too.
    pub fn from_contents(contents: &Vec<Option<String>>) -> (r: (EqMap, Vec<SkippedRow>))
        ensures
            r.0@ == layers_of(contents.deep_view()),
            r.1@.map_values(|k: SkippedRow| k@) == skips_of(contents.deep_view()),
    {
        let ghost c = contents.deep_view();
        let mut map = EqMap::default();
        let mut skipped: Vec<SkippedRow> = Vec::new();
        let mut i: usize = 0;
        assert(c.take(0) =~= seq![]);
        assert(skipped@.map_values(|k: SkippedRow| k@) =~= seq![]);
        while i < contents.len()
            invariant
                c == contents.deep_view(),
                i <= contents@.len(),
                map@ == layers_of(c.take(i as int)),
                skipped@.map_values(|k: SkippedRow| k@) == skips_of(c.take(i as int)),
            decreases contents@.len() - i,
        {
            let text: Option<&str> = match &contents[i] {
                Some(t) => Some(t.as_str()),
                None => None,
            };
            assert(c.take(i + 1).drop_last() =~= c.take(i as int));
            let mut more = map.read_layer(i, text);
            skipped.append(&mut more);
            assert(skipped@.map_values(|k: SkippedRow| k@) =~= skips_of(c.take(i + 1)));
            i = i + 1;
        }
        assert(c.take(contents@.len() as int) =~= c);
        (map, skipped)
    }
}

/// The file name of overlay layer `id` (1, 2 or 3), from the base file's
/// path without its extension: `<stem_path>_<id>.txt`.
pub open spec fn layer_filename_of(stem_path: Seq<char>, id: u8) -> Seq<char> {
    let digit = if id == 1 {
        '1'
    } else if id == 2 {
        '2'
    } else {
        '3'
    };
    stem_path + seq!['_', digit, '.', 't', 'x', 't']
}

impl EqMap {
    /// Names the file of overlay layer `layer_id`, given the base file's
    /// normalized path without its extension (`foo/bar` for `foo/bar.txt`).
    pub fn layer_filename(layer_id: u8, stem_path: &str) -> (r: String)
        requires
            1 <= layer_id <= 3,
        ensures
            r@ == layer_filename_of(stem_path@, layer_id),
    {
        let suffix = if layer_id == 1 {
            "_1.txt"
        } else if layer_id == 2 {
            "_2.txt"
        } else {
            "_3.txt"
        };
        proof {
            reveal_strlit("_1.txt");
            reveal_strlit("_2.txt");
            reveal_strlit("_3.txt");
        }
        let r = String::from_str(stem_path).concat(suffix);
        assert(r@ =~= layer_filename_of(stem_path@, layer_id));
        r
    }
}

/// A `P ` row whose body does not split into eight fields, or has a
/// coordinate that is not a number or a color or size field that is not an
/// integer in [0, 255], yields no label and no segment, and is reported as an
/// invalid label.
pub proof fn lemma_malformed_label_row(s: Seq<char>)
    requires
        has_prefix(s, 'P'),
        ({
            let f = split_n(s.skip(2), ',', 8);
            f.len() != 8 || !coord_ok(f[0]) || !coord_ok(f[1]) || !coord_ok(f[2]) || !byte_ok(
                f[3],
            ) || !byte_ok(f[4]) || !byte_ok(f[5]) || !byte_ok(f[6])
        }),
    ensures
        row_label(s).is_none(),
        row_line(s).is_none(),
        row_error(s) == Some(RowError::InvalidLabel),
{
}

/// An `L ` row whose body does not split into nine fields, or has a
/// coordinate that is not a number or a color field that is not an integer in
/// [0, 255], yields no label and no segment, and is reported as an invalid line.
pub proof fn lemma_malformed_line_row(s: Seq<char>)
    requires
        has_prefix(s, 'L'),
        ({
            let f = split_n(s.skip(2), ',', 9);
            f.len() != 9 || !coord_ok(f[0]) || !coord_ok(f[1]) || !coord_ok(f[2]) || !coord_ok(
                f[3],
            ) || !coord_ok(f[4]) || !coord_ok(f[5]) || !byte_ok(f[6]) || !byte_ok(f[7])
                || !byte_ok(f[8])
        }),
    ensures
        row_label(s).is_none(),
        row_line(s).is_none(),
        row_error(s) == Some(RowError::InvalidLine),
{
}

/// A row that is reported as skipped adds nothing to its layer.
pub proof fn lemma_skipped_row_adds_nothing(layer: LayerView, s: Seq<char>)
    requires
        row_error(s).is_some(),
    ensures
        (LayerView {
            id: layer.id,
            labels: layer.labels + opt_seq(row_label(s)),
            lines: layer.lines + opt_seq(row_line(s)),
        }) == layer,
{
    assert(layer.labels + opt_seq(row_label(s)) =~= layer.labels);
    assert(layer.lines + opt_seq(row_line(s)) =~= layer.lines);
}

/// Layer ids come out in strictly ascending order, and each names an entry of
/// `c` that holds a text.
pub proof fn lemma_layers_ascending(c: Seq<Option<Seq<char>>>)
    requires
        c.len() <= usize::MAX,
    ensures
        layers_of(c).len() <= c.len(),
        forall|i: int|
            0 <= i < layers_of(c).len() ==> #[trigger] layers_of(c)[i].id < c.len() && c[layers_of(
                c,
            )[i].id as int].is_some() && layers_of(c)[i] == layer_of(
                layers_of(c)[i].id,
                c[layers_of(c)[i].id as int].unwrap(),
            ),
        forall|i: int, j: int|
            0 <= i < j < layers_of(c).len() ==> #[trigger] layers_of(c)[i].id < #[trigger] layers_of(
                c,
            )[j].id,
    decreases c.len(),
{
    if c.len() > 0 {
        let d = c.drop_last();
        lemma_layers_ascending(d);
        let l = layers_of(c);
        let ld = layers_of(d);
        assert forall|j: int| 0 <= j < d.len() implies #[trigger] d[j] == c[j] by {}
        assert forall|i: int| 0 <= i < ld.len() implies #[trigger] l[i] == ld[i] by {}
        match c.last() {
            Some(t) => {
                assert(l =~= ld.push(layer_of((c.len() - 1) as usize, t)));
            },
            None => {
                assert(l =~= ld);
            },
        }
    }
}

/// A base file that was read, with no overlay file beside it, gives a map of
/// exactly one layer: the base layer, id 0.
pub proof fn lemma_base_layer_only(base: Seq<char>)
    ensures
        layers_of(seq![Some(base), None, None, None]) == seq![layer_of(0, base)],
{
    let c = seq![Some(base), None, None, None];
    let e0: Seq<Option<Seq<char>>> = seq![Some(base)];
    let e1: Seq<Option<Seq<char>>> = seq![Some(base), None];
    let e2: Seq<Option<Seq<char>>> = seq![Some(base), None, None];
    assert(e0.drop_last() =~= Seq::<Option<Seq<char>>>::empty());
    assert(layers_of(e0.drop_last()) == Seq::<LayerView>::empty());
    assert(layers_of(e0) =~= seq![layer_of(0, base)]);
    assert(e1.drop_last() =~= e0);
    assert(layers_of(e1) =~= seq![layer_of(0, base)]);
    assert(e2.drop_last() =~= e1);
    assert(layers_of(e2) =~= seq![layer_of(0, base)]);
    assert(c.drop_last() =~= e2);
    assert(layers_of(c) =~= seq![layer_of(0, base)]);
}

/// No readable file at all gives a map with no layers.
pub proof fn lemma_no_layer_without_files(c: Seq<Option<Seq<char>>>)
    requires
        forall|i: int| 0 <= i < c.len() ==> #[trigger] c[i].is_none(),
    ensures
        layers_of(c).len() == 0,
    decreases c.len(),
{
    if c.len() > 0 {
        lemma_no_layer_without_files(c.drop_last());
        assert(c.last().is_none());
    }
}

/// Loading the same file texts twice gives maps with the same layers, labels
/// and segments, in the same order.
pub proof fn lemma_load_deterministic(m1: EqMap, m2: EqMap, c: Seq<Option<Seq<char>>>)
    requires
        m1@ == layers_of(c),
        m2@ == layers_of(c),
    ensures
        m1@ == m2@,
        m1.layers@.len() == m2.layers@.len(),
        forall|i: int|
            0 <= i < m1.layers@.len() ==> #[trigger] m1.layers@[i]@ == m2.layers@[i]@,
{
    assert forall|i: int| 0 <= i < m1.layers@.len() implies #[trigger] m1.layers@[i]@
        == m2.layers@[i]@ by {
        assert(m1@[i] == m2@[i]);
    }
}

/// Fields written one after another, each but the first behind a comma.
pub open spec fn join_fields(f: Seq<Seq<char>>) -> Seq<char>
    decreases f.len(),
{
    if f.len() == 0 {
        seq![]
    } else if f.len() == 1 {
        f[0]
    } else {
        f[0] + seq![','] + join_fields(f.drop_first())
    }
}

/// Splitting `n` joined fields into at most `n` pieces gives them back, when
/// no field but the last holds a comma.
pub proof fn lemma_split_join(f: Seq<Seq<char>>)
    requires
        f.len() >= 1,
        forall|i: int, j: int| 0 <= i < f.len() - 1 && 0 <= j < f[i].len() ==> #[trigger] f[i][j] != ',',
    ensures
        split_n(join_fields(f), ',', f.len() as nat) == f,
    decreases f.len(),
{
    if f.len() == 1 {
        assert(seq![f[0]] =~= f);
    } else {
        let s = join_fields(f);
        let a = f[0];
        let g = f.drop_first();
        assert(s == a + seq![','] + join_fields(g));
        assert forall|j: int| 0 <= j < a.len() implies #[trigger] s[j] != ',' by {
            assert(s[j] == f[0][j]);
        }
        lemma_sep_index(s, ',', a.len() as int);
        assert(s.take(a.len() as int) =~= a);
        assert(s.skip(a.len() as int + 1) =~= join_fields(g));
        assert forall|i: int, j: int| 0 <= i < g.len() - 1 && 0 <= j < g[i].len() implies #[trigger] g[i][j]
            != ',' by {
            assert(g[i] == f[i + 1]);
        }
        lemma_split_join(g);
        assert(split_n(s, ',', f.len() as nat) =~= seq![a] + g);
        assert(f =~= seq![a] + g);
    }
}

/// `t` behind one space, as fields after the first are written.
pub open spec fn spaced(t: Seq<char>) -> Seq<char> {
    seq![' '] + t
}

/// The fields of the body of the row that writes label `l`.
pub open spec fn label_fields(l: LabelView) -> Seq<Seq<char>> {
    seq![
        l.x,
        spaced(l.y),
        spaced(l.z),
        spaced(decimal_text(l.r as nat)),
        spaced(decimal_text(l.g as nat)),
        spaced(decimal_text(l.b as nat)),
        spaced(decimal_text(l.size as nat)),
        spaced(l.text),
    ]
}

/// The row that writes label `l`: `P x, y, z, r, g, b, size, text`, with the
/// color channels and size in decimal.
pub open spec fn label_row(l: LabelView) -> Seq<char> {
    seq!['P', ' '] + join_fields(label_fields(l))
}

/// A label that a row can hold: numbers for coordinates, and a text without
/// white space around it.
pub open spec fn label_writable(l: LabelView) -> bool {
    is_float_text(l.x) && is_float_text(l.y) && is_float_text(l.z) && trim_spec(l.text) == l.text
}

proof fn lemma_spaced_plain(t: Seq<char>)
    requires
        forall|i: int| 0 <= i < t.len() ==> is_plain(#[trigger] t[i]),
    ensures
        forall|j: int| 0 <= j < spaced(t).len() ==> #[trigger] spaced(t)[j] != ',',
{
    assert forall|j: int| 0 <= j < spaced(t).len() implies #[trigger] spaced(t)[j] != ',' by {
        if j > 0 {
            assert(spaced(t)[j] == t[j - 1]);
        }
    }
}

/// Writing a label as a row and reading the row back gives the same label:
/// its coordinates, its color channels and size as the same integers in
/// [0, 255], and its text, commas included.
pub proof fn lemma_label_round_trip(l: LabelView)
    requires
        label_writable(l),
    ensures
        row_label(label_row(l)) == Some(l),
        row_line(label_row(l)).is_none(),
        row_error(label_row(l)).is_none(),
{
    let f = label_fields(l);
    lemma_float_text_plain(l.x);
    lemma_float_text_plain(l.y);
    lemma_float_text_plain(l.z);
    lemma_u8_text_round_trip(l.r);
    lemma_u8_text_round_trip(l.g);
    lemma_u8_text_round_trip(l.b);
    lemma_u8_text_round_trip(l.size);
    lemma_spaced_plain(l.y);
    lemma_spaced_plain(l.z);
    lemma_spaced_plain(decimal_text(l.r as nat));
    lemma_spaced_plain(decimal_text(l.g as nat));
    lemma_spaced_plain(decimal_text(l.b as nat));
    lemma_spaced_plain(decimal_text(l.size as nat));
    assert forall|i: int, j: int| 0 <= i < f.len() - 1 && 0 <= j < f[i].len() implies #[trigger] f[i][j]
        != ',' by {
        if i == 0 {
            assert(is_plain(l.x[j]));
        } else if i == 1 {
            assert(spaced(l.y)[j] != ',');
        } else if i == 2 {
            assert(spaced(l.z)[j] != ',');
        } else if i == 3 {
            assert(spaced(decimal_text(l.r as nat))[j] != ',');
        } else if i == 4 {
            assert(spaced(decimal_text(l.g as nat))[j] != ',');
        } else if i == 5 {
            assert(spaced(decimal_text(l.b as nat))[j] != ',');
        } else {
            assert(spaced(decimal_text(l.size as nat))[j] != ',');
        }
    }
    lemma_split_join(f);
    let row = label_row(l);
    assert(row.skip(2) =~= join_fields(f));
    lemma_trim_keeps(l.x);
    lemma_trim_keeps(l.y);
    lemma_trim_keeps(l.z);
    lemma_trim_keeps(decimal_text(l.r as nat));
    lemma_trim_keeps(decimal_text(l.g as nat));
    lemma_trim_keeps(decimal_text(l.b as nat));
    lemma_trim_keeps(decimal_text(l.size as nat));
    lemma_trim_after_space(l.text);
    let sp = split_n(row.skip(2), ',', 8);
    assert(sp == f);
    assert(label_of(row.skip(2)) == Some(l));
}

} // verus!
