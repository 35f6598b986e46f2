//! The PLY container: a text header that names the properties of a vertex
//! and fixes their layout, then one binary little-endian record per splat.

use vstd::prelude::*;
use vstd::string::StringSliceAdditionalSpecFns;
use crate::endian::{le32_bytes, read_u32_at, u32_le, write_u32_le};
use crate::text::{
    byte_views, bytes_eq, copy_bytes, decimal_digits, decimal_value, lines_from, parse_decimal,
    split_lines, split_words, words_from, write_decimal,
};

verus! {

/// The first three bytes of a PLY file, `ply`, as a little-endian number.
pub const PLY_MAGIC: u32 = 0x00796c70;

/// The longest header that is read, in bytes.
pub const PLY_MAX_HEADER: usize = 65536;

/// The type of a property.
#[derive(Debug, Clone, Copy, PartialEq, Eq, Structural)]
pub enum PlyPropertyType {
    Float,
    Uchar,
}

impl PlyPropertyType {
    /// Bytes that a value of the type takes: 4 for a float, 1 for a uchar.
    pub open spec fn spec_size(self) -> nat {
        match self {
            PlyPropertyType::Float => 4,
            PlyPropertyType::Uchar => 1,
        }
    }

    /// Bytes that a value of the type takes.
    pub fn size(&self) -> (n: usize)
        ensures
            n == self.spec_size(),
    {
        match self {
            PlyPropertyType::Float => 4,
            PlyPropertyType::Uchar => 1,
        }
    }
}

/// A property: its type and where in a record it stands.
#[derive(Debug, Clone, Copy, PartialEq, Eq, Structural)]
pub struct PlyProperty {
    pub ty: PlyPropertyType,
    pub offset: usize,
}

/// The value of a property as it stands in a record.
#[derive(Debug, Clone, Copy, PartialEq, Eq, Structural)]
pub enum PlyValue {
    /// The bit pattern of a single-precision float.
    Float(u32),
    /// A byte, which stands for itself over 255.
    Uchar(u8),
}

/// Why a PLY stream cannot be decoded.
#[derive(Debug, Clone, Copy, PartialEq, Eq, Structural)]
pub enum PlyError {
    /// The stream does not start with `ply`, or ended before its header.
    Invalid,
    /// The header does not end within 64 KiB.
    HeaderTooLarge,
    /// The header is not UTF-8.
    HeaderNotUtf8,
    /// The first line is not `ply`.
    InvalidHeader,
    /// The format is not `binary_little_endian`.
    UnsupportedFormat,
    /// The format version is not `1.0`.
    UnsupportedVersion,
    /// An element other than `vertex`.
    UnsupportedElement,
    /// The vertex count is no number.
    InvalidCount,
    /// A property type other than `float` and `uchar`.
    UnsupportedPropertyType,
    /// A line that is none of format, element, property and comment.
    UnsupportedLine,
    /// No `element vertex` line.
    MissingCount,
    /// A required property is missing; its place in the list of required
    /// properties is given.
    MissingProperty(usize),
    /// The number of `f_rest_` properties is none of 0, 9, 24 and 45.
    InvalidFRestCount(usize),
    /// Bytes follow the last record.
    UnexpectedData,
    /// The stream ended before the last record; given are the number of
    /// splats announced and the number read.
    CountMismatch(usize, usize),
}

/// What a header line says.
pub ghost enum PlyLine {
    Blank,
    Format,
    Element(usize),
    Property(PlyPropertyType, Seq<u8>),
    Comment,
}

/// What the words of a header line say. A line of three words that starts
/// with `format`, `element` or `property` is checked word by word; a line
/// that starts with `comment` is skipped; any other line that is not blank
/// is an error.
pub open spec fn ply_line(w: Seq<Seq<u8>>) -> Result<PlyLine, PlyError> {
    if w.len() == 0 {
        Ok(PlyLine::Blank)
    } else if w[0] == "format".spec_bytes() && w.len() == 3 {
        if w[1] != "binary_little_endian".spec_bytes() {
            Err(PlyError::UnsupportedFormat)
        } else if w[2] != "1.0".spec_bytes() {
            Err(PlyError::UnsupportedVersion)
        } else {
            Ok(PlyLine::Format)
        }
    } else if w[0] == "element".spec_bytes() && w.len() == 3 {
        if w[1] != "vertex".spec_bytes() {
            Err(PlyError::UnsupportedElement)
        } else {
            match decimal_value(w[2], usize::MAX as nat) {
                None => Err(PlyError::InvalidCount),
                Some(n) => Ok(PlyLine::Element(n as usize)),
            }
        }
    } else if w[0] == "property".spec_bytes() && w.len() == 3 {
        if w[1] == "float".spec_bytes() {
            Ok(PlyLine::Property(PlyPropertyType::Float, w[2]))
        } else if w[1] == "uchar".spec_bytes() {
            Ok(PlyLine::Property(PlyPropertyType::Uchar, w[2]))
        } else {
            Err(PlyError::UnsupportedPropertyType)
        }
    } else if w[0] == "comment".spec_bytes() {
        Ok(PlyLine::Comment)
    } else {
        Err(PlyError::UnsupportedLine)
    }
}

/// A property with its name.
pub struct PlyNamedProperty {
    pub name: Vec<u8>,
    pub property: PlyProperty,
}

/// What a header declares: the number of vertices, the size of a record,
/// and the properties in their order.
pub struct PlyHeader {
    pub num_splats: Option<usize>,
    pub record_size: usize,
    pub properties: Vec<PlyNamedProperty>,
}

/// A header, as plain values.
pub ghost struct PlyHeaderView {
    pub num_splats: Option<usize>,
    pub record_size: nat,
    pub properties: Seq<(Seq<u8>, PlyProperty)>,
}

impl View for PlyHeader {
    type V = PlyHeaderView;

    open spec fn view(&self) -> PlyHeaderView {
        PlyHeaderView {
            num_splats: self.num_splats,
            record_size: self.record_size as nat,
            properties: Seq::new(
                self.properties@.len(),
                |i: int| (self.properties@[i].name@, self.properties@[i].property),
            ),
        }
    }
}

/// A header after one more line: a count is taken, a property is put
/// behind those before it.
pub open spec fn ply_apply(h: PlyHeaderView, line: PlyLine) -> PlyHeaderView {
    match line {
        PlyLine::Element(n) => PlyHeaderView { num_splats: Some(n), ..h },
        PlyLine::Property(ty, name) => PlyHeaderView {
            num_splats: h.num_splats,
            record_size: h.record_size + ty.spec_size(),
            properties: h.properties.push(
                (name, PlyProperty { ty, offset: h.record_size as usize }),
            ),
        },
        _ => h,
    }
}

/// What the lines `1..k` declare.
pub open spec fn ply_fold(lines: Seq<Seq<u8>>, k: int) -> Result<PlyHeaderView, PlyError>
    decreases k,
{
    if k <= 1 {
        Ok(PlyHeaderView { num_splats: None, record_size: 0, properties: Seq::empty() })
    } else {
        match ply_fold(lines, k - 1) {
            Err(e) => Err(e),
            Ok(h) => match ply_line(words_from(lines[k - 1], 0)) {
                Err(e) => Err(e),
                Ok(line) => Ok(ply_apply(h, line)),
            },
        }
    }
}

/// What a header text declares. Its first line is `ply`; a vertex count is
/// needed.
pub open spec fn ply_header_of(text: Seq<u8>) -> Result<PlyHeaderView, PlyError> {
    let lines = lines_from(text, 0);
    if words_from(lines[0], 0) != seq!["ply".spec_bytes()] {
        Err(PlyError::InvalidHeader)
    } else {
        match ply_fold(lines, lines.len() as int) {
            Err(e) => Err(e),
            Ok(h) => if h.num_splats.is_none() {
                Err(PlyError::MissingCount)
            } else {
                Ok(h)
            },
        }
    }
}

proof fn lemma_ply_fold_size(lines: Seq<Seq<u8>>, k: int)
    requires
        1 <= k <= lines.len(),
    ensures
        ply_fold(lines, k) matches Ok(h) ==> h.record_size <= 4 * k,
    decreases k,
{
    if k > 1 {
        lemma_ply_fold_size(lines, k - 1);
    }
}

fn is_word(w: &Vec<u8>, name: &str) -> (r: bool)
    ensures
        r == (w@ == name.spec_bytes()),
{
    bytes_eq(w.as_slice(), name.as_bytes())
}

/// Reads one header line into the header.
fn apply_line(h: &mut PlyHeader, words: &Vec<Vec<u8>>) -> (r: Result<(), PlyError>)
    requires
        old(h).record_size + 4 <= usize::MAX,
    ensures
        match r {
            Ok(()) => ply_line(byte_views(words@)) matches Ok(line) && final(h)@ == ply_apply(
                old(h)@,
                line,
            ),
            Err(e) => ply_line(byte_views(words@)) == Err::<PlyLine, PlyError>(e),
        },
{
    let ghost w = byte_views(words@);
    let ghost before = h@;
    if words.len() == 0 {
        return Ok(());
    }
    assert(w[0] == words@[0]@);
    if is_word(&words[0], "format") && words.len() == 3 {
        assert(w[1] == words@[1]@ && w[2] == words@[2]@);
        if !is_word(&words[1], "binary_little_endian") {
            return Err(PlyError::UnsupportedFormat);
        }
        if !is_word(&words[2], "1.0") {
            return Err(PlyError::UnsupportedVersion);
        }
        Ok(())
    } else if is_word(&words[0], "element") && words.len() == 3 {
        assert(w[1] == words@[1]@ && w[2] == words@[2]@);
        if !is_word(&words[1], "vertex") {
            return Err(PlyError::UnsupportedElement);
        }
        match parse_decimal(words[2].as_slice()) {
            None => Err(PlyError::InvalidCount),
            Some(n) => {
                h.num_splats = Some(n);
                assert(h@.properties =~= before.properties);
                Ok(())
            },
        }
    } else if is_word(&words[0], "property") && words.len() == 3 {
        assert(w[1] == words@[1]@ && w[2] == words@[2]@);
        let ty = if is_word(&words[1], "float") {
            PlyPropertyType::Float
        } else if is_word(&words[1], "uchar") {
            PlyPropertyType::Uchar
        } else {
            return Err(PlyError::UnsupportedPropertyType);
        };
        let name = copy_bytes(words[2].as_slice(), 0, words[2].len());
        assert(name@ =~= words@[2]@);
        let property = PlyProperty { ty, offset: h.record_size };
        h.properties.push(PlyNamedProperty { name, property });
        h.record_size = h.record_size + ty.size();
        assert(h@.properties =~= before.properties.push((w[2], property)));
        Ok(())
    } else if is_word(&words[0], "comment") {
        Ok(())
    } else {
        Err(PlyError::UnsupportedLine)
    }
}

/// Reads a header text of at most 64 KiB.
pub fn parse_ply_header(text: &[u8]) -> (r: Result<PlyHeader, PlyError>)
    requires
        text@.len() <= PLY_MAX_HEADER,
    ensures
        match r {
            Ok(h) => ply_header_of(text@) == Ok::<PlyHeaderView, PlyError>(h@),
            Err(e) => ply_header_of(text@) == Err::<PlyHeaderView, PlyError>(e),
        },
{
    let lines = split_lines(text);
    let ghost ls = byte_views(lines@);
    proof {
        lemma_lines_count(text@, 0);
    }
    let first = split_words(lines[0].as_slice());
    assert(ls[0] == lines@[0]@);
    if !(first.len() == 1 && is_word(&first[0], "ply")) {
        proof {
            let fw = byte_views(first@);
            if fw.len() == 1 {
                assert(fw[0] == first@[0]@);
                assert(fw[0] != seq!["ply".spec_bytes()][0]);
            }
        }
        return Err(PlyError::InvalidHeader);
    }
    assert(byte_views(first@) =~= seq!["ply".spec_bytes()]) by {
        assert(byte_views(first@)[0] == first@[0]@);
    }
    let mut h = PlyHeader { num_splats: None, record_size: 0, properties: Vec::new() };
    assert(h@.properties =~= Seq::<(Seq<u8>, PlyProperty)>::empty());
    let mut k: usize = 1;
    while k < lines.len()
        invariant
            1 <= k <= lines@.len(),
            lines@.len() <= PLY_MAX_HEADER + 1,
            ls == byte_views(lines@),
            ls == lines_from(text@, 0),
            words_from(ls[0], 0) == seq!["ply".spec_bytes()],
            ply_fold(ls, k as int) == Ok::<PlyHeaderView, PlyError>(h@),
        decreases lines@.len() - k,
    {
        proof {
            lemma_ply_fold_size(ls, k as int);
        }
        let words = split_words(lines[k].as_slice());
        assert(ls[k as int] == lines@[k as int]@);
        match apply_line(&mut h, &words) {
            Err(e) => {
                proof {
                    assert(ply_fold(ls, k + 1) == Err::<PlyHeaderView, PlyError>(e));
                    lemma_ply_fold_err(ls, k + 1, ls.len() as int);
                }
                return Err(e);
            },
            Ok(()) => {},
        }
        k += 1;
    }
    if h.num_splats.is_none() {
        return Err(PlyError::MissingCount);
    }
    Ok(h)
}

proof fn lemma_ply_fold_err(lines: Seq<Seq<u8>>, k: int, n: int)
    requires
        1 < k <= n,
        ply_fold(lines, k).is_err(),
    ensures
        ply_fold(lines, n) == ply_fold(lines, k),
    decreases n - k,
{
    if k < n {
        lemma_ply_fold_err(lines, k, n - 1);
    }
}

proof fn lemma_lines_count(b: Seq<u8>, i: int)
    requires
        0 <= i <= b.len(),
    ensures
        1 <= lines_from(b, i).len() <= b.len() - i + 1,
    decreases b.len() - i,
{
    let e = crate::text::find_byte(b, 0x0a, i);
    lemma_find_bounds(b, i);
    if e < b.len() {
        lemma_lines_count(b, e + 1);
    }
}

proof fn lemma_find_bounds(b: Seq<u8>, i: int)
    requires
        0 <= i <= b.len(),
    ensures
        i <= crate::text::find_byte(b, 0x0a, i) <= b.len(),
    decreases b.len() - i,
{
    if i < b.len() && b[i] != 0x0a {
        lemma_find_bounds(b, i + 1);
    }
}

/// The property of that name among the first `k`; the last one where
/// several have the name.
pub open spec fn ply_lookup(props: Seq<(Seq<u8>, PlyProperty)>, name: Seq<u8>, k: int) -> Option<
    PlyProperty,
>
    decreases k,
{
    if k <= 0 {
        None
    } else if props[k - 1].0 == name {
        Some(props[k - 1].1)
    } else {
        ply_lookup(props, name, k - 1)
    }
}

/// The names of the properties that every file needs, in the order in which
/// they are looked up: the center, the log-scales, the rotation as x, y, z
/// and w (which the file calls `rot_1`, `rot_2`, `rot_3` and `rot_0`), the
/// opacity, and the base color.
pub open spec fn ply_required_name(i: int) -> Seq<u8> {
    if i == 0 {
        "x".spec_bytes()
    } else if i == 1 {
        "y".spec_bytes()
    } else if i == 2 {
        "z".spec_bytes()
    } else if i == 3 {
        "scale_0".spec_bytes()
    } else if i == 4 {
        "scale_1".spec_bytes()
    } else if i == 5 {
        "scale_2".spec_bytes()
    } else if i == 6 {
        "rot_1".spec_bytes()
    } else if i == 7 {
        "rot_2".spec_bytes()
    } else if i == 8 {
        "rot_3".spec_bytes()
    } else if i == 9 {
        "rot_0".spec_bytes()
    } else if i == 10 {
        "opacity".spec_bytes()
    } else if i == 11 {
        "f_dc_0".spec_bytes()
    } else if i == 12 {
        "f_dc_1".spec_bytes()
    } else {
        "f_dc_2".spec_bytes()
    }
}

/// Number of required properties.
pub const PLY_REQUIRED: usize = 14;

/// The name of the `index`-th further color coefficient.
pub open spec fn f_rest_name_of(index: nat) -> Seq<u8> {
    "f_rest_".spec_bytes() + decimal_digits(index)
}

/// How many of the properties `f_rest_k`, `f_rest_(k+1)`, ... are there
/// without a gap, counted up to the number of properties.
pub open spec fn f_rest_count(props: Seq<(Seq<u8>, PlyProperty)>, k: nat) -> nat
    decreases props.len() - k,
{
    if k >= props.len() {
        k
    } else if ply_lookup(props, f_rest_name_of(k), props.len() as int).is_none() {
        k
    } else {
        f_rest_count(props, k + 1)
    }
}

/// Coefficients per channel below band `degree + 1`: 0, 3, 8 and 15.
pub open spec fn spec_f_rest_offset(degree: int) -> int {
    if degree <= 0 {
        0
    } else if degree == 1 {
        3
    } else if degree == 2 {
        8
    } else {
        15
    }
}

/// The index of the `f_rest_` property that holds coefficient `k` of band
/// `degree` for channel `d`, in a file of degree `max_sh_degree`: the
/// coefficients of a channel stand together.
pub open spec fn f_rest_index(max_sh_degree: int, degree: int, k: int, d: int) -> int {
    spec_f_rest_offset(max_sh_degree) * d + spec_f_rest_offset(degree - 1) + k
}

/// The degree that a number of `f_rest_` properties stands for.
pub open spec fn ply_degree_of(count: nat) -> Option<usize> {
    if count == 0 {
        Some(0)
    } else if count == 9 {
        Some(1)
    } else if count == 24 {
        Some(2)
    } else if count == 45 {
        Some(3)
    } else {
        None
    }
}

/// Where the fields of a splat stand in a record.
pub struct PlyLayout {
    /// Number of splats announced.
    pub num_splats: usize,
    /// Bytes of a record.
    pub record_size: usize,
    /// The required properties, in the order of `ply_required_name`.
    pub required: Vec<PlyProperty>,
    /// Highest spherical-harmonic band present.
    pub max_sh_degree: usize,
    /// The properties of the bands 1, 2 and 3, one after the other: for each
    /// coefficient its red, green and blue.
    pub sh: Vec<PlyProperty>,
}

/// A layout, as plain values.
pub ghost struct PlyLayoutView {
    pub num_splats: usize,
    pub record_size: usize,
    pub required: Seq<PlyProperty>,
    pub max_sh_degree: usize,
    pub sh: Seq<PlyProperty>,
}

impl View for PlyLayout {
    type V = PlyLayoutView;

    open spec fn view(&self) -> PlyLayoutView {
        PlyLayoutView {
            num_splats: self.num_splats,
            record_size: self.record_size,
            required: self.required@,
            max_sh_degree: self.max_sh_degree,
            sh: self.sh@,
        }
    }
}

/// The index of the first required property that is missing, 14 if none is.
pub open spec fn ply_first_missing(props: Seq<(Seq<u8>, PlyProperty)>, i: int) -> int
    decreases 14 - i,
{
    if i >= 14 {
        14
    } else if ply_lookup(props, ply_required_name(i), props.len() as int).is_none() {
        i
    } else {
        ply_first_missing(props, i + 1)
    }
}

/// The band that the `j`-th spherical-harmonic value of a splat belongs to:
/// nine values of band 1, then 15 of band 2, then 21 of band 3.
pub open spec fn sh_band_of(j: int) -> int {
    if j < 9 {
        1
    } else if j < 24 {
        2
    } else {
        3
    }
}

/// The place of the `j`-th spherical-harmonic value within its band.
pub open spec fn sh_place_of(j: int) -> int {
    if j < 9 {
        j
    } else if j < 24 {
        j - 9
    } else {
        j - 24
    }
}

/// The `f_rest_` index of the `j`-th spherical-harmonic value of a splat.
pub open spec fn sh_f_rest_index(max_sh_degree: int, j: int) -> int {
    f_rest_index(max_sh_degree, sh_band_of(j), sh_place_of(j) / 3, sh_place_of(j) % 3)
}

/// The layout that a header gives. Every required property is needed; the
/// number of `f_rest_` properties fixes the degree.
pub open spec fn ply_layout_of(h: PlyHeaderView) -> Result<PlyLayoutView, PlyError> {
    let n = h.properties.len() as int;
    let missing = ply_first_missing(h.properties, 0);
    if missing < 14 {
        Err(PlyError::MissingProperty(missing as usize))
    } else {
        let count = f_rest_count(h.properties, 0);
        match ply_degree_of(count) {
            None => Err(PlyError::InvalidFRestCount(count as usize)),
            Some(degree) => Ok(
                PlyLayoutView {
                    num_splats: h.num_splats.unwrap(),
                    record_size: h.record_size as usize,
                    required: Seq::new(
                        14,
                        |i: int| ply_lookup(h.properties, ply_required_name(i), n).unwrap(),
                    ),
                    max_sh_degree: degree,
                    sh: Seq::new(
                        count,
                        |j: int|
                            ply_lookup(
                                h.properties,
                                f_rest_name_of(sh_f_rest_index(degree as int, j) as nat),
                                n,
                            ).unwrap(),
                    ),
                },
            ),
        }
    }
}

/// Coefficients per channel below band `degree + 1`.
pub fn f_rest_offset(degree: usize) -> (n: usize)
    requires
        degree <= 3,
    ensures
        n == spec_f_rest_offset(degree as int),
{
    if degree == 0 {
        0
    } else if degree == 1 {
        3
    } else if degree == 2 {
        8
    } else {
        15
    }
}

/// The name `f_rest_` followed by `index` in decimal digits.
fn f_rest_name_at(index: usize) -> (name: Vec<u8>)
    ensures
        name@ == f_rest_name_of(index as nat),
{
    let prefix = "f_rest_".as_bytes();
    let mut name = copy_bytes(prefix, 0, prefix.len());
    assert(name@ =~= "f_rest_".spec_bytes());
    write_decimal(&mut name, index);
    name
}

/// The name of the property that holds coefficient `k` of band `degree` for
/// channel `d`, in a file of degree `max_sh_degree`.
pub fn f_rest_name(max_sh_degree: usize, degree: usize, k: usize, d: usize) -> (name: Vec<u8>)
    requires
        1 <= degree <= max_sh_degree <= 3,
        k < 7,
        d < 3,
    ensures
        name@ == f_rest_name_of(f_rest_index(max_sh_degree as int, degree as int, k as int, d as int) as nat),
{
    let stride = f_rest_offset(max_sh_degree);
    let offset = f_rest_offset(degree - 1);
    f_rest_name_at(stride * d + offset + k)
}

impl PlyHeader {
    /// The property of that name; the last one where several have it.
    pub fn lookup(&self, name: &[u8]) -> (r: Option<PlyProperty>)
        ensures
            r == ply_lookup(self@.properties, name@, self@.properties.len() as int),
    {
        let mut k = self.properties.len();
        while k > 0
            invariant
                k <= self.properties@.len(),
                ply_lookup(self@.properties, name@, self@.properties.len() as int) == ply_lookup(
                    self@.properties,
                    name@,
                    k as int,
                ),
            decreases k,
        {
            k -= 1;
            assert(self@.properties[k as int].0 == self.properties@[k as int].name@);
            if bytes_eq(self.properties[k].name.as_slice(), name) {
                return Some(self.properties[k].property);
            }
        }
        None
    }

    fn required_name(i: usize) -> (name: &'static str)
        requires
            i < 14,
        ensures
            name.spec_bytes() == ply_required_name(i as int),
    {
        if i == 0 {
            "x"
        } else if i == 1 {
            "y"
        } else if i == 2 {
            "z"
        } else if i == 3 {
            "scale_0"
        } else if i == 4 {
            "scale_1"
        } else if i == 5 {
            "scale_2"
        } else if i == 6 {
            "rot_1"
        } else if i == 7 {
            "rot_2"
        } else if i == 8 {
            "rot_3"
        } else if i == 9 {
            "rot_0"
        } else if i == 10 {
            "opacity"
        } else if i == 11 {
            "f_dc_0"
        } else if i == 12 {
            "f_dc_1"
        } else {
            "f_dc_2"
        }
    }

    /// Finds the fields of a splat among the properties.
    pub fn layout(&self) -> (r: Result<PlyLayout, PlyError>)
        requires
            self.num_splats.is_some(),
        ensures
            match r {
                Ok(l) => ply_layout_of(self@) == Ok::<PlyLayoutView, PlyError>(l@),
                Err(e) => ply_layout_of(self@) == Err::<PlyLayoutView, PlyError>(e),
            },
    {
        let ghost props = self@.properties;
        let ghost n = props.len() as int;
        let mut required: Vec<PlyProperty> = Vec::new();
        let mut i: usize = 0;
        while i < 14
            invariant
                i <= 14,
                props == self@.properties,
                n == props.len(),
                required@.len() == i,
                ply_first_missing(props, 0) == ply_first_missing(props, i as int),
                forall|j: int|
                    0 <= j < i ==> ply_lookup(props, ply_required_name(j), n) == Some(required@[j]),
            decreases 14 - i,
        {
            match self.lookup(Self::required_name(i).as_bytes()) {
                None => {
                    return Err(PlyError::MissingProperty(i));
                },
                Some(p) => {
                    required.push(p);
                },
            }
            i += 1;
        }
        let total = self.properties.len();
        let mut count: usize = 0;
        while count < total
            invariant
                count <= total,
                total == n,
                props == self@.properties,
                n == props.len(),
                f_rest_count(props, 0) == f_rest_count(props, count as nat),
                forall|j: nat| j < count ==> ply_lookup(props, f_rest_name_of(j), n).is_some(),
            ensures
                count <= total,
                f_rest_count(props, 0) == count,
                forall|j: nat| j < count ==> ply_lookup(props, f_rest_name_of(j), n).is_some(),
            decreases total - count,
        {
            let name = f_rest_name_at(count);
            if self.lookup(name.as_slice()).is_none() {
                break ;
            }
            count += 1;
        }
        assert(ply_first_missing(props, 0) == 14);
        let degree: usize = if count == 0 {
            0
        } else if count == 9 {
            1
        } else if count == 24 {
            2
        } else if count == 45 {
            3
        } else {
            return Err(PlyError::InvalidFRestCount(count));
        };
        let mut sh: Vec<PlyProperty> = Vec::new();
        let mut j: usize = 0;
        while j < count
            invariant
                j <= count,
                count == 3 * spec_f_rest_offset(degree as int),
                degree <= 3,
                props == self@.properties,
                n == props.len(),
                sh@.len() == j,
                forall|m: nat| m < count ==> ply_lookup(props, f_rest_name_of(m), n).is_some(),
                forall|m: int|
                    0 <= m < j ==> sh@[m] == ply_lookup(
                        props,
                        f_rest_name_of(sh_f_rest_index(degree as int, m) as nat),
                        n,
                    ).unwrap(),
            decreases count - j,
        {
            let band: usize = if j < 9 {
                1
            } else if j < 24 {
                2
            } else {
                3
            };
            let place: usize = if j < 9 {
                j
            } else if j < 24 {
                j - 9
            } else {
                j - 24
            };
            let name = f_rest_name(degree, band, place / 3, place % 3);
            let ghost index = sh_f_rest_index(degree as int, j as int);
            assert(0 <= index < count);
            match self.lookup(name.as_slice()) {
                None => {
                    assert(false);
                    return Err(PlyError::Invalid);
                },
                Some(p) => {
                    sh.push(p);
                },
            }
            j += 1;
        }
        let layout = PlyLayout {
            num_splats: self.num_splats.unwrap(),
            record_size: self.record_size,
            required,
            max_sh_degree: degree,
            sh,
        };
        proof {
            let want = ply_layout_of(self@).unwrap();
            assert(layout@.required =~= want.required);
            assert(layout@.sh =~= want.sh);
        }
        Ok(layout)
    }
}

/// A run of splat records, as their bytes.
pub struct PlyBatch {
    /// Index of the first splat.
    pub base: usize,
    /// Number of splats.
    pub count: usize,
    /// The records of these splats.
    pub bytes: Vec<u8>,
}

/// A batch, as plain values.
pub ghost struct PlyBatchView {
    pub base: nat,
    pub count: nat,
    pub bytes: Seq<u8>,
}

impl View for PlyBatch {
    type V = PlyBatchView;

    open spec fn view(&self) -> PlyBatchView {
        PlyBatchView { base: self.base as nat, count: self.count as nat, bytes: self.bytes@ }
    }
}

/// The batches of a list, as plain values.
pub open spec fn ply_batch_views(batches: Seq<PlyBatch>) -> Seq<PlyBatchView> {
    Seq::new(batches.len(), |i: int| batches[i]@)
}

/// The value of property `p` in record `i` of `bytes`.
pub open spec fn ply_value_of(l: PlyLayoutView, bytes: Seq<u8>, i: int, p: PlyProperty) -> PlyValue {
    let at = i * l.record_size + p.offset;
    match p.ty {
        PlyPropertyType::Float => PlyValue::Float(u32_le(bytes, at)),
        PlyPropertyType::Uchar => PlyValue::Uchar(bytes[at]),
    }
}

impl PlyLayout {
    /// Reads the value of property `p` in record `i` of `bytes`, where the
    /// record lies in `bytes` and the property in the record.
    pub fn value(&self, bytes: &[u8], i: usize, p: PlyProperty) -> (r: Option<PlyValue>)
        ensures
            r.is_some() <==> (i + 1) * self.record_size <= bytes@.len() && p.offset
                + p.ty.spec_size() <= self.record_size,
            r matches Some(v) ==> v == ply_value_of(self@, bytes@, i as int, p),
    {
        let rs = self.record_size;
        let size = p.ty.size();
        if p.offset > rs || rs - p.offset < size {
            return None;
        }
        if i >= bytes.len() / rs {
            assert((i + 1) * rs > bytes@.len()) by (nonlinear_arith)
                requires
                    i >= bytes@.len() / (rs as nat),
                    rs > 0,
            ;
            return None;
        }
        assert((i + 1) * rs <= bytes@.len() && i * rs + rs == (i + 1) * rs) by (nonlinear_arith)
            requires
                i < bytes@.len() / (rs as nat),
                rs > 0,
        ;
        let at = i * rs + p.offset;
        match p.ty {
            PlyPropertyType::Float => Some(PlyValue::Float(read_u32_at(bytes, at))),
            PlyPropertyType::Uchar => Some(PlyValue::Uchar(bytes[at])),
        }
    }
}

/// The records that `buf` holds, read in batches of at most 16 384: the
/// number of splats then read, the bytes left, and the batches. Records
/// beyond the number of splats announced are an error.
pub open spec fn ply_data(l: PlyLayoutView, next: nat, buf: Seq<u8>) -> Result<
    (nat, Seq<u8>, Seq<PlyBatchView>),
    PlyError,
>
    decreases buf.len(),
{
    let avail = if l.record_size == 0 {
        0
    } else {
        buf.len() / l.record_size as nat
    };
    let count = if avail < 16384 {
        avail
    } else {
        16384
    };
    let n = (count * l.record_size) as int;
    if count == 0 || n <= 0 || n > buf.len() {
        Ok((next, buf, Seq::empty()))
    } else if next + count > l.num_splats {
        Err(PlyError::UnexpectedData)
    } else {
        match ply_data(l, next + count, buf.subrange(n, buf.len() as int)) {
            Err(e) => Err(e),
            Ok((end, rest, more)) => Ok(
                (
                    end,
                    rest,
                    seq![PlyBatchView { base: next, count: count, bytes: buf.subrange(0, n) }]
                        + more,
                ),
            ),
        }
    }
}

/// Where the line `end_header` starts, searched from `i` on.
pub open spec fn ply_header_end(b: Seq<u8>, i: int) -> Option<int>
    decreases b.len() - i,
{
    if i < 0 || i + 11 > b.len() {
        None
    } else if b.subrange(i, i + 11) == "end_header\n".spec_bytes() {
        Some(i)
    } else {
        ply_header_end(b, i + 1)
    }
}

/// A decoder, as plain values.
pub ghost struct PlyDecoderView {
    /// The layout, once the header is read.
    pub layout: Option<PlyLayoutView>,
    /// Number of splats read.
    pub next_splat: nat,
    /// The bytes that are not read yet.
    pub buffer: Seq<u8>,
}

/// The decoder after `bytes` are appended to its unread bytes, and the
/// batches that it reads on the way.
///
/// Without a layout it waits for four bytes, of which the first three are
/// `ply`, and for the line `end_header` within the first 64 KiB. The header
/// before that line is UTF-8 text and gives the layout; the records follow
/// the line.
pub open spec fn ply_feed(s: PlyDecoderView, bytes: Seq<u8>) -> Result<
    (PlyDecoderView, Seq<PlyBatchView>),
    PlyError,
> {
    let buf = s.buffer + bytes;
    match s.layout {
        Some(l) => match ply_data(l, s.next_splat, buf) {
            Err(e) => Err(e),
            Ok((next, rest, batches)) => Ok(
                (PlyDecoderView { layout: Some(l), next_splat: next, buffer: rest }, batches),
            ),
        },
        None => if buf.len() < 4 {
            Ok((PlyDecoderView { layout: None, next_splat: 0, buffer: buf }, Seq::empty()))
        } else if buf[0] != 0x70 || buf[1] != 0x6c || buf[2] != 0x79 {
            Err(PlyError::Invalid)
        } else {
            match ply_header_end(buf, 0) {
                None => if buf.len() >= PLY_MAX_HEADER {
                    Err(PlyError::HeaderTooLarge)
                } else {
                    Ok((PlyDecoderView { layout: None, next_splat: 0, buffer: buf }, Seq::empty()))
                },
                Some(end) => if end > PLY_MAX_HEADER {
                    Err(PlyError::HeaderTooLarge)
                } else if !vstd::utf8::valid_utf8(buf.subrange(0, end)) {
                    Err(PlyError::HeaderNotUtf8)
                } else {
                    match ply_header_of(buf.subrange(0, end)) {
                        Err(e) => Err(e),
                        Ok(h) => match ply_layout_of(h) {
                            Err(e) => Err(e),
                            Ok(l) => match ply_data(
                                l,
                                0,
                                buf.subrange(end + 11, buf.len() as int),
                            ) {
                                Err(e) => Err(e),
                                Ok((next, rest, batches)) => Ok(
                                    (
                                        PlyDecoderView {
                                            layout: Some(l),
                                            next_splat: next,
                                            buffer: rest,
                                        },
                                        batches,
                                    ),
                                ),
                            },
                        },
                    }
                },
            }
        },
    }
}

/// `std::str::from_utf8`, asked only whether it succeeds: it does on the
/// byte strings that are UTF-8.
#[verifier::external_body]
fn is_utf8(bytes: &[u8]) -> (ok: bool)
    ensures
        ok == vstd::utf8::valid_utf8(bytes@),
{
    std::str::from_utf8(bytes).is_ok()
}

/// Finds the line `end_header`.
fn find_header_end(b: &[u8]) -> (r: Option<usize>)
    ensures
        r.is_some() ==> ply_header_end(b@, 0) == Some(r.unwrap() as int) && r.unwrap() + 11
            <= b@.len(),
        r.is_none() ==> ply_header_end(b@, 0).is_none(),
        "end_header\n".spec_bytes().len() == 11,
{
    let t = "end_header\n".as_bytes();
    proof {
        reveal_strlit("end_header\n");
        vstd::string::is_ascii_spec_bytes("end_header\n");
        assert("end_header\n".is_ascii()) by {
            reveal_strlit("end_header\n");
        }
    }
    assert(t@.len() == 11);
    let mut i: usize = 0;
    while i < b.len() && b.len() - i >= 11
        invariant
            t@ == "end_header\n".spec_bytes(),
            t@.len() == 11,
            ply_header_end(b@, 0) == ply_header_end(b@, i as int),
        decreases b@.len() - i,
    {
        let window = vstd::slice::slice_subrange(b, i, i + 11);
        if bytes_eq(window, t) {
            return Some(i);
        }
        i += 1;
    }
    None
}

/// Decodes a PLY stream, handed over piece by piece, into batches of
/// records.
pub struct PlyDecoder {
    buffer: Vec<u8>,
    layout: Option<PlyLayout>,
    next_splat: usize,
}

/// What the end of the stream makes of a decoder: what is left is read; a
/// stream without a header, with bytes behind the last record or with
/// fewer splats than announced is refused.
pub open spec fn ply_end(d: PlyDecoderView) -> Result<(PlyDecoderView, Seq<PlyBatchView>), PlyError> {
    match ply_feed(d, Seq::empty()) {
        Err(e) => Err(e),
        Ok((end, batches)) => match end.layout {
            None => Err(PlyError::Invalid),
            Some(l) => if end.buffer.len() > 0 {
                Err(PlyError::UnexpectedData)
            } else if end.next_splat != l.num_splats {
                Err(PlyError::CountMismatch(l.num_splats, end.next_splat as usize))
            } else {
                Ok((end, batches))
            },
        },
    }
}

impl PlyDecoder {
    /// The decoder as plain values.
    pub closed spec fn view(&self) -> PlyDecoderView {
        PlyDecoderView {
            layout: match self.layout {
                Some(l) => Some(l@),
                None => None,
            },
            next_splat: self.next_splat as nat,
            buffer: self.buffer@,
        }
    }

    /// Whether the decoder is in a state that decoding reaches.
    pub closed spec fn wf(&self) -> bool {
        &&& self.layout.is_none() ==> self.next_splat == 0
        &&& self.layout matches Some(l) ==> self.next_splat <= l.num_splats
    }

    /// A decoder at the start of a stream.
    pub fn new() -> (d: Self)
        ensures
            d.wf(),
            d@.layout.is_none(),
            d@.next_splat == 0,
            d@.buffer.len() == 0,
    {
        PlyDecoder { buffer: Vec::new(), layout: None, next_splat: 0 }
    }

    /// The layout, once the header is read.
    pub fn layout(&self) -> (l: &Option<PlyLayout>)
        ensures
            match *l {
                Some(x) => self@.layout == Some(x@),
                None => self@.layout.is_none(),
            },
    {
        &self.layout
    }

    /// Number of splats read.
    pub fn num_read(&self) -> (n: usize)
        ensures
            n == self@.next_splat,
    {
        self.next_splat
    }

    /// Reads the records that the unread bytes hold.
    fn poll_data(&mut self) -> (r: Result<Vec<PlyBatch>, PlyError>)
        requires
            old(self).wf(),
            old(self).layout.is_some(),
        ensures
            final(self).wf(),
            final(self).layout == old(self).layout,
            match r {
                Ok(batches) => ply_data(
                    old(self).layout.unwrap()@,
                    old(self)@.next_splat,
                    old(self)@.buffer,
                ) == Ok::<(nat, Seq<u8>, Seq<PlyBatchView>), PlyError>(
                    (final(self)@.next_splat, final(self)@.buffer, ply_batch_views(batches@)),
                ),
                Err(e) => ply_data(
                    old(self).layout.unwrap()@,
                    old(self)@.next_splat,
                    old(self)@.buffer,
                ) == Err::<(nat, Seq<u8>, Seq<PlyBatchView>), PlyError>(e),
            },
    {
        let ghost l = self.layout.unwrap()@;
        let ghost buf0 = self.buffer@;
        let ghost next0 = self.next_splat as nat;
        let (rs, num) = match &self.layout {
            Some(x) => (x.record_size, x.num_splats),
            None => (0, 0),
        };
        let len = self.buffer.len();
        let mut batches: Vec<PlyBatch> = Vec::new();
        let mut pos: usize = 0;
        let mut failed = false;
        proof {
            assert(buf0.subrange(0, len as int) =~= buf0);
            assert(ply_batch_views(batches@) =~= Seq::<PlyBatchView>::empty());
        }
        loop
            invariant_except_break
                !failed,
                ply_data(l, next0, buf0) == match ply_data(
                    l,
                    self.next_splat as nat,
                    buf0.subrange(pos as int, len as int),
                ) {
                    Err(e) => Err::<(nat, Seq<u8>, Seq<PlyBatchView>), PlyError>(e),
                    Ok((end, rest, more)) => Ok((end, rest, ply_batch_views(batches@) + more)),
                },
            invariant
                self.layout == old(self).layout,
                self.layout.is_some(),
                l == self.layout.unwrap()@,
                rs == l.record_size,
                num == l.num_splats,
                self.buffer@ == buf0,
                len == buf0.len(),
                pos <= len,
                self.next_splat <= num,
            ensures
                pos <= len,
                self.buffer@ == buf0,
                self.layout == old(self).layout,
                self.next_splat <= num,
                failed ==> ply_data(l, next0, buf0) == Err::<
                    (nat, Seq<u8>, Seq<PlyBatchView>),
                    PlyError,
                >(PlyError::UnexpectedData),
                !failed ==> ply_data(l, next0, buf0) == Ok::<
                    (nat, Seq<u8>, Seq<PlyBatchView>),
                    PlyError,
                >(
                    (
                        self.next_splat as nat,
                        buf0.subrange(pos as int, len as int),
                        ply_batch_views(batches@),
                    ),
                ),
            decreases len - pos,
        {
            let ghost rest = buf0.subrange(pos as int, len as int);
            let avail = if rs == 0 {
                0
            } else {
                (len - pos) / rs
            };
            let count = if avail < 16384 {
                avail
            } else {
                16384
            };
            if count == 0 {
                assert(ply_batch_views(batches@) + Seq::<PlyBatchView>::empty() =~= ply_batch_views(
                    batches@,
                ));
                break ;
            }
            assert(count * rs <= len - pos && count * rs >= 1) by (nonlinear_arith)
                requires
                    1 <= count <= avail,
                    avail == (len - pos) / (rs as int),
                    rs > 0,
            ;
            if count > num - self.next_splat {
                failed = true;
                break ;
            }
            let n = count * rs;
            let bytes = copy_bytes(self.buffer.as_slice(), pos, pos + n);
            let batch = PlyBatch { base: self.next_splat, count, bytes };
            proof {
                let seen = ply_batch_views(batches@);
                assert(rest.subrange(0, n as int) =~= buf0.subrange(pos as int, pos + n));
                assert(rest.subrange(n as int, rest.len() as int) =~= buf0.subrange(
                    pos + n,
                    len as int,
                ));
                assert(ply_batch_views(batches@.push(batch)) =~= seen + seq![batch@]);
                match ply_data(l, (self.next_splat + count) as nat, buf0.subrange(pos + n, len as int)) {
                    Ok((_, _, more)) => {
                        assert((seen + seq![batch@]) + more =~= seen + (seq![batch@] + more));
                    },
                    Err(_) => {},
                }
            }
            batches.push(batch);
            pos = pos + n;
            self.next_splat = self.next_splat + count;
        }
        if failed {
            return Err(PlyError::UnexpectedData);
        }
        let rest = copy_bytes(self.buffer.as_slice(), pos, len);
        self.buffer = rest;
        Ok(batches)
    }

    /// Appends `bytes` to the unread bytes and reads what can be read: the
    /// header first, then the records, batch by batch.
    pub fn push(&mut self, bytes: &[u8]) -> (r: Result<Vec<PlyBatch>, PlyError>)
        requires
            old(self).wf(),
        ensures
            final(self).wf(),
            match r {
                Ok(batches) => ply_feed(old(self)@, bytes@) == Ok::<
                    (PlyDecoderView, Seq<PlyBatchView>),
                    PlyError,
                >((final(self)@, ply_batch_views(batches@))),
                Err(e) => ply_feed(old(self)@, bytes@) == Err::<
                    (PlyDecoderView, Seq<PlyBatchView>),
                    PlyError,
                >(e),
            },
    {
        let ghost before = self@;
        self.buffer.extend_from_slice(bytes);
        assert(self.buffer@ == before.buffer + bytes@);
        if self.layout.is_some() {
            let r = self.poll_data();
            return r;
        }
        assert(before.layout.is_none() && before.next_splat == 0);
        if self.buffer.len() < 4 {
            assert(ply_batch_views(Seq::<PlyBatch>::empty()) =~= Seq::<PlyBatchView>::empty());
            return Ok(Vec::new());
        }
        if self.buffer[0] != 0x70 || self.buffer[1] != 0x6c || self.buffer[2] != 0x79 {
            return Err(PlyError::Invalid);
        }
        let end = match find_header_end(self.buffer.as_slice()) {
            None => {
                if self.buffer.len() >= PLY_MAX_HEADER {
                    return Err(PlyError::HeaderTooLarge);
                }
                assert(ply_batch_views(Seq::<PlyBatch>::empty()) =~= Seq::<PlyBatchView>::empty());
                return Ok(Vec::new());
            },
            Some(end) => end,
        };
        if end > PLY_MAX_HEADER {
            return Err(PlyError::HeaderTooLarge);
        }
        let text = copy_bytes(self.buffer.as_slice(), 0, end);
        if !is_utf8(text.as_slice()) {
            return Err(PlyError::HeaderNotUtf8);
        }
        let header = match parse_ply_header(text.as_slice()) {
            Err(e) => {
                return Err(e);
            },
            Ok(h) => h,
        };
        let layout = match header.layout() {
            Err(e) => {
                return Err(e);
            },
            Ok(l) => l,
        };
        let len = self.buffer.len();
        let rest = copy_bytes(self.buffer.as_slice(), end + 11, len);
        self.buffer = rest;
        self.layout = Some(layout);
        self.poll_data()
    }

    /// Ends the stream: reads what is left, and checks that no byte is left
    /// over and no splat missing.
    pub fn finish(&mut self) -> (r: Result<Vec<PlyBatch>, PlyError>)
        requires
            old(self).wf(),
        ensures
            final(self).wf(),
            match ply_end(old(self)@) {
                Err(e) => r == Err::<Vec<PlyBatch>, PlyError>(e),
                Ok((end, batches)) => r matches Ok(b) && ply_batch_views(b@) == batches && final(self)@ == end,
            },
    {
        let empty: Vec<u8> = Vec::new();
        let batches = match self.push(empty.as_slice()) {
            Err(e) => {
                return Err(e);
            },
            Ok(b) => b,
        };
        match &self.layout {
            None => Err(PlyError::Invalid),
            Some(l) => {
                if self.buffer.len() > 0 {
                    Err(PlyError::UnexpectedData)
                } else if self.next_splat != l.num_splats {
                    Err(PlyError::CountMismatch(l.num_splats, self.next_splat))
                } else {
                    Ok(batches)
                }
            },
        }
    }
}

/// The fields of a scene as a PLY file holds them: for each splat the bit
/// patterns of its floats, in the order of the properties that are written.
pub struct PlySplats {
    /// Number of splats.
    pub num_splats: usize,
    /// Highest spherical-harmonic band present, 0 to 3.
    pub max_sh_degree: usize,
    /// The rows of the splats, one after the other.
    pub values: Vec<u32>,
}

/// Number of properties that are written for a scene of that degree: the
/// 14 required ones and three times the coefficients per channel.
pub open spec fn ply_row_len(degree: int) -> int {
    14 + 3 * spec_f_rest_offset(degree)
}

/// The name of the `i`-th property that is written: the center, the base
/// color, the further color coefficients, the opacity, the log-scales and
/// the rotation.
pub open spec fn ply_out_name(degree: int, i: int) -> Seq<u8> {
    let k = 3 * spec_f_rest_offset(degree);
    if i == 0 {
        "x".spec_bytes()
    } else if i == 1 {
        "y".spec_bytes()
    } else if i == 2 {
        "z".spec_bytes()
    } else if i == 3 {
        "f_dc_0".spec_bytes()
    } else if i == 4 {
        "f_dc_1".spec_bytes()
    } else if i == 5 {
        "f_dc_2".spec_bytes()
    } else if i < 6 + k {
        f_rest_name_of((i - 6) as nat)
    } else if i == 6 + k {
        "opacity".spec_bytes()
    } else if i == 7 + k {
        "scale_0".spec_bytes()
    } else if i == 8 + k {
        "scale_1".spec_bytes()
    } else if i == 9 + k {
        "scale_2".spec_bytes()
    } else if i == 10 + k {
        "rot_0".spec_bytes()
    } else if i == 11 + k {
        "rot_1".spec_bytes()
    } else if i == 12 + k {
        "rot_2".spec_bytes()
    } else {
        "rot_3".spec_bytes()
    }
}

/// The property lines of the first `k` properties.
pub open spec fn ply_property_lines(degree: int, k: int) -> Seq<u8>
    decreases k,
{
    if k <= 0 {
        Seq::empty()
    } else {
        ply_property_lines(degree, k - 1) + "property float ".spec_bytes() + ply_out_name(
            degree,
            k - 1,
        ) + "\n".spec_bytes()
    }
}

/// The header of a file of `n` splats of that degree, with the line
/// `end_header`.
pub open spec fn ply_header_text(n: nat, degree: int) -> Seq<u8> {
    "ply\nformat binary_little_endian 1.0\nelement vertex ".spec_bytes() + decimal_digits(n)
        + "\n".spec_bytes() + ply_property_lines(degree, ply_row_len(degree))
        + "end_header\n".spec_bytes()
}

/// The first `k` values, four bytes each.
pub open spec fn ply_values_bytes(v: Seq<u32>, k: int) -> Seq<u8>
    decreases k,
{
    if k <= 0 {
        Seq::empty()
    } else {
        ply_values_bytes(v, k - 1) + le32_bytes(v[k - 1])
    }
}

/// The file of a scene: the header and the rows.
pub open spec fn ply_file(s: PlySplats) -> Seq<u8> {
    ply_header_text(s.num_splats as nat, s.max_sh_degree as int) + ply_values_bytes(
        s.values@,
        s.values@.len() as int,
    )
}

fn push_str(out: &mut Vec<u8>, text: &str)
    ensures
        final(out)@ == old(out)@ + text.spec_bytes(),
{
    out.extend_from_slice(text.as_bytes());
}

fn out_name(degree: usize, i: usize) -> (name: Vec<u8>)
    requires
        degree <= 3,
        i < ply_row_len(degree as int),
    ensures
        name@ == ply_out_name(degree as int, i as int),
{
    let k = 3 * f_rest_offset(degree);
    if i >= 6 && i < 6 + k {
        return f_rest_name_at(i - 6);
    }
    let text = if i == 0 {
        "x"
    } else if i == 1 {
        "y"
    } else if i == 2 {
        "z"
    } else if i == 3 {
        "f_dc_0"
    } else if i == 4 {
        "f_dc_1"
    } else if i == 5 {
        "f_dc_2"
    } else if i == 6 + k {
        "opacity"
    } else if i == 7 + k {
        "scale_0"
    } else if i == 8 + k {
        "scale_1"
    } else if i == 9 + k {
        "scale_2"
    } else if i == 10 + k {
        "rot_0"
    } else if i == 11 + k {
        "rot_1"
    } else if i == 12 + k {
        "rot_2"
    } else {
        "rot_3"
    };
    let bytes = text.as_bytes();
    let name = copy_bytes(bytes, 0, bytes.len());
    assert(name@ =~= text.spec_bytes());
    name
}

/// The place among the spherical-harmonic values of a splat (band after
/// band, for each coefficient its red, green and blue) of the value that
/// the property `f_rest_r` holds, in a file of that degree: the properties
/// hold the coefficients of a channel together.
pub open spec fn sh_of_rest(degree: int, r: int) -> int {
    let per = spec_f_rest_offset(degree);
    let d = r / per;
    let within = r % per;
    if within < 3 {
        3 * within + d
    } else if within < 8 {
        9 + 3 * (within - 3) + d
    } else {
        24 + 3 * (within - 8) + d
    }
}

/// The property `f_rest_r` holds the value whose `f_rest_` index is `r`.
pub proof fn lemma_sh_of_rest(degree: int, r: int)
    requires
        1 <= degree <= 3,
        0 <= r < 3 * spec_f_rest_offset(degree),
    ensures
        0 <= sh_of_rest(degree, r) < 3 * spec_f_rest_offset(degree),
        sh_f_rest_index(degree, sh_of_rest(degree, r)) == r,
{
    let per = spec_f_rest_offset(degree);
    let d = r / per;
    let within = r % per;
    assert(0 <= d < 3 && 0 <= within < per && r == per * d + within) by {
        if degree == 1 {
            assert(r == 3 * (r / 3) + r % 3);
        } else if degree == 2 {
            assert(r == 8 * (r / 8) + r % 8);
        } else {
            assert(r == 15 * (r / 15) + r % 15);
        }
    }
    let j = sh_of_rest(degree, r);
    if within < 3 {
        assert(j / 3 == within && j % 3 == d);
    } else if within < 8 {
        assert((j - 9) / 3 == within - 3 && (j - 9) % 3 == d);
    } else {
        assert((j - 24) / 3 == within - 8 && (j - 24) % 3 == d);
    }
}

/// The value at place `i` of the row of a splat: the center, the base
/// color, the further color coefficients in the order of their properties,
/// the opacity, the log-scales, and the rotation, w before x, y and z.
pub open spec fn ply_row_value(
    degree: int,
    center: Seq<u32>,
    f_dc: Seq<u32>,
    sh: Seq<u32>,
    opacity: u32,
    ln_scales: Seq<u32>,
    quat_xyzw: Seq<u32>,
    i: int,
) -> u32 {
    let k = 3 * spec_f_rest_offset(degree);
    if i < 3 {
        center[i]
    } else if i < 6 {
        f_dc[i - 3]
    } else if i < 6 + k {
        sh[sh_of_rest(degree, i - 6)]
    } else if i == 6 + k {
        opacity
    } else if i < 10 + k {
        ln_scales[i - 7 - k]
    } else if i == 10 + k {
        quat_xyzw[3]
    } else {
        quat_xyzw[i - 11 - k]
    }
}

/// The row of a splat as a PLY file holds it, value for value in the order
/// of the properties that are written. `sh` holds the spherical harmonics
/// band after band, for each coefficient its red, green and blue; the
/// rotation is given as x, y, z, w.
pub fn ply_row(
    degree: usize,
    center: [u32; 3],
    f_dc: [u32; 3],
    sh: &[u32],
    opacity: u32,
    ln_scales: [u32; 3],
    quat_xyzw: [u32; 4],
) -> (row: Vec<u32>)
    requires
        degree <= 3,
        sh@.len() == 3 * spec_f_rest_offset(degree as int),
    ensures
        row@.len() == ply_row_len(degree as int),
        forall|i: int|
            0 <= i < row@.len() ==> #[trigger] row@[i] == ply_row_value(
                degree as int,
                center@,
                f_dc@,
                sh@,
                opacity,
                ln_scales@,
                quat_xyzw@,
                i,
            ),
{
    let per = f_rest_offset(degree);
    let mut row: Vec<u32> = Vec::new();
    row.push(center[0]);
    row.push(center[1]);
    row.push(center[2]);
    row.push(f_dc[0]);
    row.push(f_dc[1]);
    row.push(f_dc[2]);
    let mut r: usize = 0;
    while r < 3 * per
        invariant
            r <= 3 * per,
            degree <= 3,
            per == spec_f_rest_offset(degree as int),
            sh@.len() == 3 * per,
            row@.len() == 6 + r,
            forall|i: int|
                0 <= i < row@.len() ==> #[trigger] row@[i] == ply_row_value(
                    degree as int,
                    center@,
                    f_dc@,
                    sh@,
                    opacity,
                    ln_scales@,
                    quat_xyzw@,
                    i,
                ),
        decreases 3 * per - r,
    {
        proof {
            lemma_sh_of_rest(degree as int, r as int);
        }
        let d = r / per;
        let within = r % per;
        let j = if within < 3 {
            3 * within + d
        } else if within < 8 {
            9 + 3 * (within - 3) + d
        } else {
            24 + 3 * (within - 8) + d
        };
        row.push(sh[j]);
        r += 1;
    }
    row.push(opacity);
    row.push(ln_scales[0]);
    row.push(ln_scales[1]);
    row.push(ln_scales[2]);
    row.push(quat_xyzw[3]);
    row.push(quat_xyzw[0]);
    row.push(quat_xyzw[1]);
    row.push(quat_xyzw[2]);
    row
}

impl PlySplats {
    /// Whether the rows have the length that the degree asks for.
    pub open spec fn wf(&self) -> bool {
        &&& self.max_sh_degree <= 3
        &&& self.values@.len() == self.num_splats * ply_row_len(self.max_sh_degree as int)
    }

    /// Checks the length of the rows.
    pub fn is_wf(&self) -> (ok: bool)
        ensures
            ok == self.wf(),
    {
        if self.max_sh_degree > 3 {
            return false;
        }
        let row = 14 + 3 * f_rest_offset(self.max_sh_degree);
        let len = self.values.len();
        if len % row != 0 {
            assert(len != self.num_splats * row) by (nonlinear_arith)
                requires
                    len % row != 0,
                    row > 0,
            ;
            return false;
        }
        let q = len / row;
        assert(len == q * row) by (nonlinear_arith)
            requires
                len % row == 0,
                q == len / row,
                row > 0,
        ;
        if q != self.num_splats {
            assert(len != self.num_splats * row) by (nonlinear_arith)
                requires
                    len == q * row,
                    q != self.num_splats,
                    row > 0,
            ;
            return false;
        }
        true
    }
}

/// Writes a scene as a binary little-endian PLY file.
pub struct PlyEncoder {
    splats: PlySplats,
}

impl PlyEncoder {
    /// The scene to write.
    pub closed spec fn splats(&self) -> PlySplats {
        self.splats
    }

    /// An encoder for `splats`.
    pub fn new(splats: PlySplats) -> (e: Self)
        ensures
            e.splats() == splats,
    {
        PlyEncoder { splats }
    }

    /// The file of the scene.
    pub fn encode(self) -> (out: Vec<u8>)
        requires
            self.splats().wf(),
        ensures
            out@ == ply_file(self.splats()),
    {
        let s = &self.splats;
        let degree = s.max_sh_degree;
        let mut out: Vec<u8> = Vec::new();
        push_str(&mut out, "ply\nformat binary_little_endian 1.0\nelement vertex ");
        write_decimal(&mut out, s.num_splats);
        push_str(&mut out, "\n");
        let ghost head = out@;
        let row = 14 + 3 * f_rest_offset(degree);
        let mut i: usize = 0;
        assert(out@ =~= head + ply_property_lines(degree as int, 0));
        while i < row
            invariant
                i <= row,
                degree <= 3,
                row == ply_row_len(degree as int),
                out@ == head + ply_property_lines(degree as int, i as int),
            decreases row - i,
        {
            let name = out_name(degree, i);
            push_str(&mut out, "property float ");
            out.extend_from_slice(name.as_slice());
            push_str(&mut out, "\n");
            i += 1;
            assert(out@ =~= head + ply_property_lines(degree as int, i as int));
        }
        push_str(&mut out, "end_header\n");
        assert(out@ =~= ply_header_text(s.num_splats as nat, degree as int));
        let ghost text = out@;
        let mut k: usize = 0;
        assert(out@ =~= text + ply_values_bytes(s.values@, 0));
        while k < s.values.len()
            invariant
                k <= s.values@.len(),
                out@ == text + ply_values_bytes(s.values@, k as int),
            decreases s.values@.len() - k,
        {
            write_u32_le(&mut out, s.values[k]);
            k += 1;
            assert(out@ =~= text + ply_values_bytes(s.values@, k as int));
        }
        out
    }
}

} // verus!
