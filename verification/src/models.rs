use vstd::prelude::*;
use linked_hash_map::LinkedHashMap;
use ply_rs::parser::Parser;
use ply_rs::ply::{DefaultElement, Property};
use crate::geometry::Point;
use crate::scalar::{Scalar, ZERO_BITS};

verus! {

/// `linked_hash_map::LinkedHashMap`, the map that `ply_rs` keeps a PLY
/// payload and each of its elements in.
#[verifier::external_type_specification]
#[verifier::external_body]
#[verifier::reject_recursive_types(K)]
#[verifier::reject_recursive_types(V)]
#[verifier::reject_recursive_types(S)]
pub struct ExLinkedHashMap<K, V, S>(LinkedHashMap<K, V, S>);

/// `ply_rs::ply::Property`, one property value of a PLY element.
#[verifier::external_type_specification]
#[verifier::external_body]
pub struct ExProperty(Property);

/// `std::io::Error`, the error with which `ply_rs` refuses a file.
#[verifier::external_type_specification]
#[verifier::external_body]
pub struct ExIoError(std::io::Error);

/// A property value of a PLY element, as the model loader reads it: a
/// single-precision number (by its bit pattern), a list of `int`s, or any
/// other kind of value.
#[derive(Debug)]
pub enum PlyValue {
    Float(Scalar),
    ListInt(Vec<i32>),
    Other,
}

/// What a `PlyValue` stands for.
pub enum PlyValueView {
    Float(Scalar),
    ListInt(Seq<i32>),
    Other,
}

impl PlyValue {
    pub open spec fn view(self) -> PlyValueView {
        match self {
            PlyValue::Float(s) => PlyValueView::Float(s),
            PlyValue::ListInt(v) => PlyValueView::ListInt(v@),
            PlyValue::Other => PlyValueView::Other,
        }
    }
}

/// The properties of one PLY element, by name.
pub type ElementView = Map<Seq<char>, PlyValueView>;

/// The payload of a PLY file: for each element name, its elements in order.
pub type PayloadView = Map<Seq<char>, Seq<ElementView>>;

/// The properties that a `DefaultElement` of `ply_rs` holds.
pub uninterp spec fn ply_element(e: DefaultElement) -> ElementView;

/// The elements, by name, that the payload of a PLY file read by `ply_rs`
/// holds.
pub uninterp spec fn ply_payload(p: LinkedHashMap<String, Vec<DefaultElement>>) -> PayloadView;

/// The payload that `ply_rs` reads from the bytes of a PLY file, or `None`
/// when it refuses them.
pub uninterp spec fn parsed_ply(bytes: Seq<u8>) -> Option<PayloadView>;

/// The bytes of the word `format`.
pub open spec fn format_word() -> Seq<u8> {
    seq![102u8, 111u8, 114u8, 109u8, 97u8, 116u8]
}

/// The bytes of the word `element`.
pub open spec fn element_word() -> Seq<u8> {
    seq![101u8, 108u8, 101u8, 109u8, 101u8, 110u8, 116u8]
}

/// The bytes of the word `end_header`.
pub open spec fn end_header_word() -> Seq<u8> {
    seq![101u8, 110u8, 100u8, 95u8, 104u8, 101u8, 97u8, 100u8, 101u8, 114u8]
}

/// The bytes of the encoding `ascii`.
pub open spec fn ascii_word() -> Seq<u8> {
    seq![97u8, 115u8, 99u8, 105u8, 105u8]
}

/// The bytes of the encoding `binary_big_endian`.
pub open spec fn big_endian_word() -> Seq<u8> {
    seq![98u8, 105u8, 110u8, 97u8, 114u8, 121u8, 95u8, 98u8, 105u8, 103u8, 95u8, 101u8, 110u8, 100u8, 105u8, 97u8, 110u8]
}

/// The bytes of the encoding `binary_little_endian`.
pub open spec fn little_endian_word() -> Seq<u8> {
    seq![98u8, 105u8, 110u8, 97u8, 114u8, 121u8, 95u8, 108u8, 105u8, 116u8, 116u8, 108u8, 101u8, 95u8, 101u8, 110u8, 100u8, 105u8, 97u8, 110u8]
}

/// Whether `word` stands in `bytes` from position `i` on.
pub open spec fn matches_at(bytes: Seq<u8>, i: int, word: Seq<u8>) -> bool {
    0 <= i && i + word.len() <= bytes.len() && bytes.subrange(i, i + word.len()) == word
}

/// Whether a line starts at `s`: at the first byte, or just after a newline.
pub open spec fn line_start(bytes: Seq<u8>, s: int) -> bool {
    s == 0 || (0 < s <= bytes.len() && bytes[s - 1] == 10u8)
}

/// The kinds of bytes that make up the words of a header line.
#[derive(Clone, Copy, Debug)]
pub enum ByteClass {
    /// A space or a tab.
    Blank,
    /// A decimal digit.
    Digit,
    /// A byte that may follow the first one of a name: a letter, a digit,
    /// `_` or `-`.
    NameTail,
}

/// Whether `b` may begin a name: a letter or `_`.
pub open spec fn is_name_start(b: u8) -> bool {
    (97u8 <= b <= 122u8) || (65u8 <= b <= 90u8) || b == 95u8
}

/// Whether the byte `b` is of the class `c`.
pub open spec fn in_class(c: ByteClass, b: u8) -> bool {
    match c {
        ByteClass::Blank => b == 32u8 || b == 9u8,
        ByteClass::Digit => 48u8 <= b <= 57u8,
        ByteClass::NameTail => is_name_start(b) || (48u8 <= b <= 57u8) || b == 45u8,
    }
}

/// Where the run of bytes of class `c` that begins at `p` ends: the first
/// position from `p` on that holds no byte of the class.
pub open spec fn run_end(bytes: Seq<u8>, p: int, c: ByteClass) -> int
    decreases bytes.len() - p,
{
    if 0 <= p < bytes.len() && in_class(c, bytes[p]) {
        run_end(bytes, p + 1, c)
    } else {
        p
    }
}

/// The number that the decimal digits `bytes[p..q]` write.
pub open spec fn digits_value(bytes: Seq<u8>, p: int, q: int) -> int
    decreases q - p,
{
    if q <= p {
        0
    } else {
        digits_value(bytes, p, q - 1) * 10 + (bytes[q - 1] - 48)
    }
}

/// Whether the line at `s` is an `element` line whose count does not fit a
/// `usize`: the word `element`, blanks, a name, blanks, and the digits of the
/// count.
pub open spec fn element_count_overflows(bytes: Seq<u8>, s: int) -> bool {
    let name = run_end(bytes, s + 7, ByteClass::Blank);
    let name_end = run_end(bytes, name + 1, ByteClass::NameTail);
    let count = run_end(bytes, name_end, ByteClass::Blank);
    let count_end = run_end(bytes, count, ByteClass::Digit);
    &&& matches_at(bytes, s, element_word())
    &&& name > s + 7
    &&& name < bytes.len() && is_name_start(bytes[name])
    &&& count > name_end
    &&& count_end > count
    &&& digits_value(bytes, count, count_end) > usize::MAX
}

/// Where the encoding of a `format` line ends, if one of `ascii`,
/// `binary_big_endian` and `binary_little_endian` stands at `p`.
pub open spec fn encoding_end(bytes: Seq<u8>, p: int) -> Option<int> {
    if matches_at(bytes, p, ascii_word()) {
        Some(p + 5)
    } else if matches_at(bytes, p, big_endian_word()) {
        Some(p + 17)
    } else if matches_at(bytes, p, little_endian_word()) {
        Some(p + 20)
    } else {
        None
    }
}

/// Whether the line at `s` is a `format` line with a version number that
/// does not fit a `u64`: the word `format`, blanks, the encoding, blanks, the
/// digits of the major number and, after a `.`, those of the minor number.
pub open spec fn format_version_overflows(bytes: Seq<u8>, s: int) -> bool {
    let encoding = run_end(bytes, s + 6, ByteClass::Blank);
    &&& matches_at(bytes, s, format_word())
    &&& encoding > s + 6
    &&& match encoding_end(bytes, encoding) {
        Some(e) => {
            let major = run_end(bytes, e, ByteClass::Blank);
            let major_end = run_end(bytes, major, ByteClass::Digit);
            let minor_end = run_end(bytes, major_end + 1, ByteClass::Digit);
            &&& major > e
            &&& major_end > major
            &&& digits_value(bytes, major, major_end) > u64::MAX || (major_end < bytes.len()
                && bytes[major_end] == 46u8 && minor_end > major_end + 1
                && digits_value(bytes, major_end + 1, minor_end) > u64::MAX)
        },
        None => false,
    }
}

/// Whether the line at `s` is one of the header lines: no line before it
/// begins with `end_header`.
pub open spec fn header_line(bytes: Seq<u8>, s: int) -> bool {
    &&& line_start(bytes, s)
    &&& forall|t: int| 0 <= t < s && #[trigger] line_start(bytes, t) ==> !matches_at(bytes, t, end_header_word())
}

/// Whether the numbers of the header are ones that `ply_rs` reads the same
/// on every machine without panicking. It reads the header line by line up to
/// the first line that begins with `end_header`; it reads the count of an
/// `element` line and the two numbers of the version of a `format` line as
/// `u64`s, panicking when one does not fit, and then narrows the count to a
/// `usize`. So no count may exceed `usize` and no version number `u64`.
pub open spec fn header_numbers_fit(bytes: Seq<u8>) -> bool {
    forall|s: int| #[trigger] header_line(bytes, s) ==>
        !element_count_overflows(bytes, s) && !format_version_overflows(bytes, s)
}

/// A run ends at or after its start, within the bytes, and holds only bytes
/// of its class; past its end comes the end of the bytes or a byte of another
/// class.
proof fn lemma_run_end(bytes: Seq<u8>, p: int, c: ByteClass)
    requires
        0 <= p <= bytes.len(),
    ensures
        p <= run_end(bytes, p, c) <= bytes.len(),
        forall|k: int| p <= k < run_end(bytes, p, c) ==> in_class(c, #[trigger] bytes[k]),
        run_end(bytes, p, c) == bytes.len() || !in_class(c, bytes[run_end(bytes, p, c)]),
    decreases bytes.len() - p,
{
    if p < bytes.len() && in_class(c, bytes[p]) {
        lemma_run_end(bytes, p + 1, c);
    }
}

/// Digits write a number that does not shrink as digits are added.
proof fn lemma_digits_value_grows(bytes: Seq<u8>, p: int, j: int, q: int)
    requires
        p <= j <= q,
        forall|k: int| p <= k < q ==> in_class(ByteClass::Digit, #[trigger] bytes[k]),
    ensures
        0 <= digits_value(bytes, p, j) <= digits_value(bytes, p, q),
    decreases q - p,
{
    if q > p {
        if j == q {
            lemma_digits_value_grows(bytes, p, q - 1, q - 1);
        } else {
            lemma_digits_value_grows(bytes, p, j, q - 1);
        }
    }
}

/// The byte `k` of a word found at `i` is the byte `i + k`.
proof fn lemma_matches_byte(bytes: Seq<u8>, i: int, word: Seq<u8>, k: int)
    requires
        matches_at(bytes, i, word),
        0 <= k < word.len(),
    ensures
        bytes[i + k] == word[k],
{
    assert(bytes.subrange(i, i + word.len())[k] == bytes[i + k]);
}

/// Whether `word` stands in `bytes` from position `i` on.
fn word_at(bytes: &[u8], i: usize, word: &[u8]) -> (r: bool)
    ensures
        r == matches_at(bytes@, i as int, word@),
        r ==> i + word@.len() <= bytes.len(),
{
    if word.len() > bytes.len() || i > bytes.len() - word.len() {
        return false;
    }
    let mut k: usize = 0;
    while k < word.len()
        invariant
            i as int + word@.len() <= bytes@.len(),
            word.len() == word@.len(),
            bytes.len() == bytes@.len(),
            k <= word@.len(),
            forall|m: int| 0 <= m < k ==> bytes@[i + m] == word@[m],
        decreases word@.len() - k,
    {
        if bytes[i + k] != word[k] {
            proof {
                assert(bytes@.subrange(i as int, i + word@.len())[k as int] != word@[k as int]);
            }
            return false;
        }
        k = k + 1;
    }
    proof {
        assert(bytes@.subrange(i as int, i + word@.len()) =~= word@);
    }
    true
}

/// Whether the byte `b` is of the class `c`.
fn byte_in(c: ByteClass, b: u8) -> (r: bool)
    ensures
        r == in_class(c, b),
{
    match c {
        ByteClass::Blank => b == 32 || b == 9,
        ByteClass::Digit => 48 <= b && b <= 57,
        ByteClass::NameTail => (97 <= b && b <= 122) || (65 <= b && b <= 90) || b == 95 || (48 <= b && b <= 57) || b == 45,
    }
}

/// Where the run of bytes of class `c` that begins at `p` ends.
fn run_end_at(bytes: &[u8], p: usize, c: ByteClass) -> (r: usize)
    requires
        p <= bytes@.len(),
    ensures
        r == run_end(bytes@, p as int, c),
{
    let mut i = p;
    while i < bytes.len() && byte_in(c, bytes[i])
        invariant
            p <= i <= bytes@.len(),
            run_end(bytes@, i as int, c) == run_end(bytes@, p as int, c),
        decreases bytes@.len() - i,
    {
        i = i + 1;
    }
    i
}

/// Whether the digits `bytes[p..q]` write a number beyond `limit`.
fn digits_too_large(bytes: &[u8], p: usize, q: usize, limit: u64) -> (r: bool)
    requires
        p <= q <= bytes@.len(),
        forall|k: int| p <= k < q ==> in_class(ByteClass::Digit, #[trigger] bytes@[k]),
    ensures
        r == (digits_value(bytes@, p as int, q as int) > limit),
{
    let mut value: u64 = 0;
    let mut k = p;
    while k < q
        invariant
            p <= k <= q <= bytes@.len(),
            forall|m: int| p <= m < q ==> in_class(ByteClass::Digit, #[trigger] bytes@[m]),
            value == digits_value(bytes@, p as int, k as int),
        decreases q - k,
    {
        let digit = (bytes[k] - 48) as u64;
        let next = match value.checked_mul(10) {
            Some(tens) => tens.checked_add(digit),
            None => None,
        };
        match next {
            Some(v) => {
                value = v;
            },
            None => {
                proof {
                    lemma_digits_value_grows(bytes@, p as int, k + 1, q as int);
                }
                return true;
            },
        }
        k = k + 1;
    }
    value > limit
}

/// Whether the line at `s` is an `element` line whose count does not fit a
/// `usize`.
fn element_count_too_large(bytes: &[u8], s: usize) -> (r: bool)
    requires
        s <= bytes@.len(),
    ensures
        r == element_count_overflows(bytes@, s as int),
{
    let element: [u8; 7] = [101, 108, 101, 109, 101, 110, 116];
    proof {
        assert(element@ =~= element_word());
    }
    if !word_at(bytes, s, element.as_slice()) {
        return false;
    }
    let name = run_end_at(bytes, s + 7, ByteClass::Blank);
    proof {
        lemma_run_end(bytes@, s + 7, ByteClass::Blank);
    }
    if name == s + 7 || name >= bytes.len() {
        return false;
    }
    let first = bytes[name];
    if !((97 <= first && first <= 122) || (65 <= first && first <= 90) || first == 95) {
        return false;
    }
    let name_end = run_end_at(bytes, name + 1, ByteClass::NameTail);
    proof {
        lemma_run_end(bytes@, name + 1, ByteClass::NameTail);
    }
    let count = run_end_at(bytes, name_end, ByteClass::Blank);
    proof {
        lemma_run_end(bytes@, name_end as int, ByteClass::Blank);
    }
    if count == name_end {
        return false;
    }
    let count_end = run_end_at(bytes, count, ByteClass::Digit);
    proof {
        lemma_run_end(bytes@, count as int, ByteClass::Digit);
    }
    if count_end == count {
        return false;
    }
    digits_too_large(bytes, count, count_end, usize::MAX as u64)
}

/// Where the encoding of a `format` line that stands at `p` ends, if it is
/// one of the three encodings.
fn encoding_end_at(bytes: &[u8], p: usize) -> (r: Option<usize>)
    ensures
        r matches Some(e) ==> encoding_end(bytes@, p as int) == Some(e as int),
        r is None ==> encoding_end(bytes@, p as int) is None,
{
    let ascii: [u8; 5] = [97, 115, 99, 105, 105];
    let big: [u8; 17] = [98, 105, 110, 97, 114, 121, 95, 98, 105, 103, 95, 101, 110, 100, 105, 97, 110];
    let little: [u8; 20] = [98, 105, 110, 97, 114, 121, 95, 108, 105, 116, 116, 108, 101, 95, 101, 110, 100, 105, 97, 110];
    proof {
        assert(ascii@ =~= ascii_word());
        assert(big@ =~= big_endian_word());
        assert(little@ =~= little_endian_word());
    }
    if word_at(bytes, p, ascii.as_slice()) {
        Some(p + 5)
    } else if word_at(bytes, p, big.as_slice()) {
        Some(p + 17)
    } else if word_at(bytes, p, little.as_slice()) {
        Some(p + 20)
    } else {
        None
    }
}

/// Whether the line at `s` is a `format` line with a version number that
/// does not fit a `u64`.
fn format_version_too_large(bytes: &[u8], s: usize) -> (r: bool)
    requires
        s <= bytes@.len(),
    ensures
        r == format_version_overflows(bytes@, s as int),
{
    let format: [u8; 6] = [102, 111, 114, 109, 97, 116];
    proof {
        assert(format@ =~= format_word());
    }
    if !word_at(bytes, s, format.as_slice()) {
        return false;
    }
    let encoding = run_end_at(bytes, s + 6, ByteClass::Blank);
    proof {
        lemma_run_end(bytes@, s + 6, ByteClass::Blank);
    }
    if encoding == s + 6 {
        return false;
    }
    let e = match encoding_end_at(bytes, encoding) {
        Some(e) => e,
        None => {
            return false;
        },
    };
    let major = run_end_at(bytes, e, ByteClass::Blank);
    proof {
        lemma_run_end(bytes@, e as int, ByteClass::Blank);
    }
    if major == e {
        return false;
    }
    let major_end = run_end_at(bytes, major, ByteClass::Digit);
    proof {
        lemma_run_end(bytes@, major as int, ByteClass::Digit);
    }
    if major_end == major {
        return false;
    }
    if digits_too_large(bytes, major, major_end, u64::MAX) {
        return true;
    }
    if major_end >= bytes.len() || bytes[major_end] != 46 {
        return false;
    }
    let minor_end = run_end_at(bytes, major_end + 1, ByteClass::Digit);
    proof {
        lemma_run_end(bytes@, major_end + 1, ByteClass::Digit);
    }
    if minor_end == major_end + 1 {
        return false;
    }
    digits_too_large(bytes, major_end + 1, minor_end, u64::MAX)
}

/// Checks `header_numbers_fit`: goes through the lines up to the first that
/// begins with `end_header`, and looks at the numbers of each `element` and
/// `format` line.
pub fn check_header_numbers(bytes: &[u8]) -> (r: bool)
    ensures
        r == header_numbers_fit(bytes@),
{
    let end_header: [u8; 10] = [101, 110, 100, 95, 104, 101, 97, 100, 101, 114];
    proof {
        assert(end_header@ =~= end_header_word());
    }
    let n = bytes.len();
    let mut s: usize = 0;
    loop
        invariant
            n == bytes@.len(),
            s <= n,
            end_header@ == end_header_word(),
            header_line(bytes@, s as int),
            forall|t: int| 0 <= t < s && #[trigger] header_line(bytes@, t)
                ==> !element_count_overflows(bytes@, t) && !format_version_overflows(bytes@, t),
        decreases n - s,
    {
        if word_at(bytes, s, end_header.as_slice()) {
            proof {
                lemma_matches_byte(bytes@, s as int, end_header_word(), 0);
                lemma_matches_byte(bytes@, s as int, end_header_word(), 1);
                if matches_at(bytes@, s as int, element_word()) {
                    lemma_matches_byte(bytes@, s as int, element_word(), 1);
                }
                if matches_at(bytes@, s as int, format_word()) {
                    lemma_matches_byte(bytes@, s as int, format_word(), 0);
                }
                assert forall|t: int| #[trigger] header_line(bytes@, t)
                    implies !element_count_overflows(bytes@, t) && !format_version_overflows(bytes@, t) by {
                    if t > s {
                        assert(line_start(bytes@, s as int));
                    }
                }
            }
            return true;
        }
        if element_count_too_large(bytes, s) || format_version_too_large(bytes, s) {
            return false;
        }
        let mut i = s;
        while i < n && bytes[i] != 10
            invariant
                n == bytes@.len(),
                s <= i <= n,
                forall|k: int| s <= k < i ==> bytes@[k] != 10u8,
            decreases n - i,
        {
            i = i + 1;
        }
        if i == n {
            proof {
                assert forall|t: int| #[trigger] header_line(bytes@, t)
                    implies !element_count_overflows(bytes@, t) && !format_version_overflows(bytes@, t) by {
                    if t > s {
                        assert(bytes@[t - 1] != 10u8);
                    }
                }
            }
            return true;
        }
        proof {
            assert forall|t: int| 0 <= t < i + 1 && #[trigger] line_start(bytes@, t)
                implies !matches_at(bytes@, t, end_header_word()) by {
                if t > s {
                    assert(bytes@[t - 1] != 10u8);
                }
            }
            assert forall|t: int| 0 <= t < i + 1 && #[trigger] header_line(bytes@, t)
                implies !element_count_overflows(bytes@, t) && !format_version_overflows(bytes@, t) by {
                if t > s {
                    assert(bytes@[t - 1] != 10u8);
                }
            }
        }
        s = i + 1;
    }
}

/// Parses the bytes of a PLY file with `ply_rs::parser::Parser::read_ply`,
/// keeping the payload of the result. The parse is a function of the bytes:
/// it either refuses them or gives a payload. Its header grammar unwraps the
/// parse of each element count and version number as a `u64`, so it panics
/// on one that does not fit, and it narrows a count to a `usize`, which would
/// make the payload depend on the machine; `requires` rules out both (see
/// `header_numbers_fit`). Allocation failure on a header that declares more
/// elements than memory holds is left unsaid, as for any allocation.
#[verifier::external_body]
fn read_ply(bytes: &[u8]) -> (r: Result<LinkedHashMap<String, Vec<DefaultElement>>, std::io::Error>)
    requires
        header_numbers_fit(bytes@),
    ensures
        r matches Ok(p) ==> parsed_ply(bytes@) == Some(ply_payload(p)),
        r is Err ==> parsed_ply(bytes@) is None,
{
    let mut source: &[u8] = bytes;
    Parser::<DefaultElement>::new().read_ply(&mut source).map(|ply| ply.payload)
}

/// The elements named `name` in a payload (`LinkedHashMap::get`).
#[verifier::external_body]
fn payload_get<'a>(payload: &'a LinkedHashMap<String, Vec<DefaultElement>>, name: &str) -> (r: Option<&'a Vec<DefaultElement>>)
    ensures
        r is None <==> !ply_payload(*payload).contains_key(name@),
        r matches Some(v) ==> v@.len() == ply_payload(*payload)[name@].len()
            && forall|k: int| 0 <= k < v@.len() ==> ply_element(#[trigger] v@[k]) == ply_payload(*payload)[name@][k],
{
    payload.get(name)
}

/// The property named `name` of the element `e` (`LinkedHashMap::get` on the
/// element), told apart by its kind.
#[verifier::external_body]
fn element_get(e: &DefaultElement, name: &str) -> (r: Option<PlyValue>)
    ensures
        r is None <==> !ply_element(*e).contains_key(name@),
        r matches Some(v) ==> v.view() == ply_element(*e)[name@],
{
    match e.get(name) {
        None => None,
        Some(Property::Float(f)) => Some(PlyValue::Float(Scalar { bits: f.to_bits() })),
        Some(Property::ListInt(l)) => Some(PlyValue::ListInt(l.clone())),
        Some(_) => Some(PlyValue::Other),
    }
}


/// Why a PLY file gives no model.
#[derive(PartialEq, Eq, Structural, Clone, Copy, Debug)]
pub enum ModelError {
    /// `ply_rs` refuses the bytes.
    Parse,
    /// The payload has no `vertex` or no `face` elements.
    MissingElement,
    /// A vertex lacks one of `x`, `y`, `z`, or a face lacks `vertex_indices`.
    MissingProperty,
    /// A triangle names a vertex that does not exist.
    BadVertexIndex,
}

/// The value of the coordinate `name` of a vertex element: the number if the
/// property is a `float`, and `+0` if it is of any other kind.
pub open spec fn coord_value(e: ElementView, name: Seq<char>) -> Scalar {
    match e[name] {
        PlyValueView::Float(s) => s,
        _ => Scalar { bits: ZERO_BITS },
    }
}

/// Whether a vertex element has the three coordinates.
pub open spec fn has_coords(e: ElementView) -> bool {
    e.contains_key("x"@) && e.contains_key("y"@) && e.contains_key("z"@)
}

/// The point that a vertex element gives.
pub open spec fn vertex_of(e: ElementView) -> Point {
    Point { x: coord_value(e, "x"@), y: coord_value(e, "y"@), z: coord_value(e, "z"@) }
}

/// Whether every index of a triangle names one of `n` vertices.
pub open spec fn indices_in_range(idx: Seq<i32>, n: int) -> bool {
    forall|k: int| 0 <= k < idx.len() ==> 0 <= #[trigger] idx[k] < n
}

/// The triangles that the faces give, in order, for the vertices `verts`: a
/// face whose `vertex_indices` is a list of exactly three `int`s gives the
/// triangle of those vertices; any other face gives none. The first face
/// without `vertex_indices`, or whose three indices are not all vertices,
/// makes it fail.
pub open spec fn faces_spec(faces: Seq<ElementView>, verts: Seq<Point>) -> Result<Seq<(Point, Point, Point)>, ModelError>
    decreases faces.len(),
{
    if faces.len() == 0 {
        Ok(Seq::empty())
    } else {
        match faces_spec(faces.drop_last(), verts) {
            Err(e) => Err(e),
            Ok(tris) => {
                let f = faces.last();
                if !f.contains_key("vertex_indices"@) {
                    Err(ModelError::MissingProperty)
                } else {
                    match f["vertex_indices"@] {
                        PlyValueView::ListInt(idx) => {
                            if idx.len() != 3 {
                                Ok(tris)
                            } else if !indices_in_range(idx, verts.len() as int) {
                                Err(ModelError::BadVertexIndex)
                            } else {
                                Ok(tris.push((verts[idx[0] as int], verts[idx[1] as int], verts[idx[2] as int])))
                            }
                        },
                        _ => Ok(tris),
                    }
                }
            },
        }
    }
}

/// The triangles of a PLY payload: the `vertex` elements give the points,
/// and the `face` elements the triangles over them (see `faces_spec`).
pub open spec fn model_spec(payload: PayloadView) -> Result<Seq<(Point, Point, Point)>, ModelError> {
    if !payload.contains_key("vertex"@) {
        Err(ModelError::MissingElement)
    } else if exists|k: int| 0 <= k < payload["vertex"@].len() && !has_coords(#[trigger] payload["vertex"@][k]) {
        Err(ModelError::MissingProperty)
    } else if !payload.contains_key("face"@) {
        Err(ModelError::MissingElement)
    } else {
        faces_spec(payload["face"@], payload["vertex"@].map_values(|e: ElementView| vertex_of(e)))
    }
}

/// Once a prefix of the faces fails, so do all the faces, the same way.
proof fn lemma_faces_err_extends(faces: Seq<ElementView>, verts: Seq<Point>, j: int)
    requires
        0 <= j <= faces.len(),
        faces_spec(faces.take(j), verts) is Err,
    ensures
        faces_spec(faces, verts) == faces_spec(faces.take(j), verts),
    decreases faces.len() - j,
{
    if j < faces.len() {
        assert(faces.take(j + 1).drop_last() =~= faces.take(j));
        lemma_faces_err_extends(faces, verts, j + 1);
    } else {
        assert(faces.take(j) =~= faces);
    }
}

/// The coordinate `name` of a vertex element, if it has it.
fn vertex_coord(e: &DefaultElement, name: &str) -> (r: Option<Scalar>)
    ensures
        r is None <==> !ply_element(*e).contains_key(name@),
        r matches Some(c) ==> c == coord_value(ply_element(*e), name@),
{
    match element_get(e, name) {
        None => None,
        Some(PlyValue::Float(s)) => Some(s),
        Some(_) => Some(Scalar::zero()),
    }
}

/// Parses the bytes of a PLY file into its payload: the elements of the
/// file, by name. Bytes whose header holds a number beyond `u64` (see
/// `header_numbers_fit`), and bytes that `ply_rs` refuses, give
/// `ModelError::Parse`.
pub fn parse_ply(bytes: &[u8]) -> (r: Result<LinkedHashMap<String, Vec<DefaultElement>>, ModelError>)
    ensures
        !header_numbers_fit(bytes@) ==> (r matches Err(e) && e == ModelError::Parse),
        header_numbers_fit(bytes@) ==> match parsed_ply(bytes@) {
            None => r matches Err(e) && e == ModelError::Parse,
            Some(payload) => r matches Ok(p) && ply_payload(p) == payload,
        },
{
    if !check_header_numbers(bytes) {
        return Err(ModelError::Parse);
    }
    match read_ply(bytes) {
        Ok(p) => Ok(p),
        Err(_) => Err(ModelError::Parse),
    }
}

/// The number of elements named `name` in a payload, if it has any element
/// of that name.
pub fn element_count(payload: &LinkedHashMap<String, Vec<DefaultElement>>, name: &str) -> (r: Option<usize>)
    ensures
        r is None <==> !ply_payload(*payload).contains_key(name@),
        r matches Some(n) ==> n == ply_payload(*payload)[name@].len(),
{
    match payload_get(payload, name) {
        Some(elements) => Some(elements.len()),
        None => None,
    }
}

/// Reads a model from the bytes of a PLY file: the triangles whose faces list
/// exactly three vertex indices, each with the three corners in the order
/// the face lists them.
pub fn load_model(bytes: &[u8]) -> (r: Result<Vec<(Point, Point, Point)>, ModelError>)
    ensures
        !header_numbers_fit(bytes@) ==> r == Err::<Vec<(Point, Point, Point)>, ModelError>(ModelError::Parse),
        header_numbers_fit(bytes@) ==> match parsed_ply(bytes@) {
            None => r == Err::<Vec<(Point, Point, Point)>, ModelError>(ModelError::Parse),
            Some(payload) => match model_spec(payload) {
                Ok(tris) => r matches Ok(v) && v@ == tris,
                Err(e) => r matches Err(e2) && e2 == e,
            },
        },
{
    match parse_ply(bytes) {
        Ok(payload) => triangles_of_payload(&payload),
        Err(e) => Err(e),
    }
}

/// The triangles of a parsed PLY payload (see `model_spec`).
pub fn triangles_of_payload(payload: &LinkedHashMap<String, Vec<DefaultElement>>) -> (r: Result<Vec<(Point, Point, Point)>, ModelError>)
    ensures
        match model_spec(ply_payload(*payload)) {
            Ok(tris) => r matches Ok(v) && v@ == tris,
            Err(e) => r matches Err(e2) && e2 == e,
        },
{
    let ghost pl = ply_payload(*payload);
    let vertex_elems = match payload_get(payload, "vertex") {
        Some(v) => v,
        None => {
            return Err(ModelError::MissingElement);
        },
    };
    let ghost ve = pl["vertex"@];
    let mut vertices: Vec<Point> = Vec::new();
    let nv = vertex_elems.len();
    for k in 0..nv
        invariant
            pl == ply_payload(*payload),
            pl.contains_key("vertex"@),
            ve == pl["vertex"@],
            nv == vertex_elems@.len(),
            nv == ve.len(),
            forall|j: int| 0 <= j < nv ==> ply_element(#[trigger] vertex_elems@[j]) == ve[j],
            vertices@.len() == k,
            forall|j: int| 0 <= j < k ==> has_coords(#[trigger] ve[j]) && vertices@[j] == vertex_of(ve[j]),
    {
        let e = &vertex_elems[k];
        let x = vertex_coord(e, "x");
        let y = vertex_coord(e, "y");
        let z = vertex_coord(e, "z");
        match (x, y, z) {
            (Some(x), Some(y), Some(z)) => {
                vertices.push(Point { x, y, z });
            },
            _ => {
                proof {
                    assert(!has_coords(pl["vertex"@][k as int]));
                    assert(model_spec(pl) == Err::<Seq<(Point, Point, Point)>, ModelError>(ModelError::MissingProperty));
                }
                return Err(ModelError::MissingProperty);
            },
        }
    }
    let ghost verts = ve.map_values(|e: ElementView| vertex_of(e));
    proof {
        assert(vertices@ =~= verts);
    }
    let face_elems = match payload_get(payload, "face") {
        Some(f) => f,
        None => {
            return Err(ModelError::MissingElement);
        },
    };
    let ghost fe = pl["face"@];
    let mut triangles: Vec<(Point, Point, Point)> = Vec::new();
    let nf = face_elems.len();
    let name = "vertex_indices";
    for k in 0..nf
        invariant
            pl == ply_payload(*payload),
            pl.contains_key("vertex"@),
            pl.contains_key("face"@),
            ve == pl["vertex"@],
            fe == pl["face"@],
            forall|j: int| 0 <= j < ve.len() ==> has_coords(#[trigger] ve[j]),
            verts == ve.map_values(|e: ElementView| vertex_of(e)),
            nf == face_elems@.len(),
            nf == fe.len(),
            forall|j: int| 0 <= j < nf ==> ply_element(#[trigger] face_elems@[j]) == fe[j],
            vertices@ == verts,
            name@ == "vertex_indices"@,
            faces_spec(fe.take(k as int), verts) == Ok::<Seq<(Point, Point, Point)>, ModelError>(triangles@),
    {
        proof {
            assert(fe.take(k + 1).drop_last() =~= fe.take(k as int));
        }
        let face = &face_elems[k];
        match element_get(face, name) {
            None => {
                proof {
                    assert(fe.take(k + 1).last() == fe[k as int]);
                    lemma_faces_err_extends(fe, verts, k + 1);
                }
                return Err(ModelError::MissingProperty);
            },
            Some(PlyValue::ListInt(idx)) => {
                if idx.len() == 3 {
                    let n = vertices.len();
                    let (a, b, c) = (idx[0], idx[1], idx[2]);
                    if a < 0 || b < 0 || c < 0 || a as usize >= n || b as usize >= n || c as usize >= n {
                        proof {
                            assert(fe.take(k + 1).last() == fe[k as int]);
                            assert(!indices_in_range(idx@, n as int)) by {
                                if a < 0 || a as usize >= n {
                                    assert(!(0 <= idx@[0] < n));
                                } else if b < 0 || b as usize >= n {
                                    assert(!(0 <= idx@[1] < n));
                                } else {
                                    assert(!(0 <= idx@[2] < n));
                                }
                            }
                            lemma_faces_err_extends(fe, verts, k + 1);
                        }
                        return Err(ModelError::BadVertexIndex);
                    }
                    triangles.push((vertices[a as usize], vertices[b as usize], vertices[c as usize]));
                }
            },
            Some(_) => {},
        }
        proof {
            assert(fe.take(k + 1).last() == fe[k as int]);
        }
    }
    proof {
        assert(fe.take(nf as int) =~= fe);
    }
    Ok(triangles)
}


/// The faces give at most one triangle each, and every corner of every
/// triangle is one of the vertices.
pub proof fn lemma_faces_use_vertices(faces: Seq<ElementView>, verts: Seq<Point>)
    ensures
        faces_spec(faces, verts) matches Ok(tris) ==> {
            &&& tris.len() <= faces.len()
            &&& forall|t: int| 0 <= t < tris.len() ==> verts.contains((#[trigger] tris[t]).0)
                && verts.contains(tris[t].1) && verts.contains(tris[t].2)
        },
    decreases faces.len(),
{
    if faces.len() > 0 {
        lemma_faces_use_vertices(faces.drop_last(), verts);
        if let Ok(tris) = faces_spec(faces, verts) {
            let f = faces.last();
            if let PlyValueView::ListInt(idx) = f["vertex_indices"@] {
                if idx.len() == 3 && indices_in_range(idx, verts.len() as int) {
                    assert(0 <= idx[0] < verts.len());
                    assert(0 <= idx[1] < verts.len());
                    assert(0 <= idx[2] < verts.len());
                    assert(verts.contains(verts[idx[0] as int]));
                    assert(verts.contains(verts[idx[1] as int]));
                    assert(verts.contains(verts[idx[2] as int]));
                }
            }
        }
    }
}

/// Whether a face lists exactly three vertex indices, as a list of `int`s.
pub open spec fn is_triangle_face(f: ElementView) -> bool {
    &&& f.contains_key("vertex_indices"@)
    &&& f["vertex_indices"@] is ListInt
    &&& f["vertex_indices"@]->ListInt_0.len() == 3
}

/// The vertex indices that a face lists (none if they are not a list of
/// `int`s).
pub open spec fn face_indices(f: ElementView) -> Seq<i32> {
    match f["vertex_indices"@] {
        PlyValueView::ListInt(idx) => idx,
        _ => Seq::empty(),
    }
}

/// How many of the faces list exactly three vertex indices.
pub open spec fn triangle_face_count(faces: Seq<ElementView>) -> nat
    decreases faces.len(),
{
    if faces.len() == 0 {
        0
    } else {
        triangle_face_count(faces.drop_last()) + if is_triangle_face(faces.last()) { 1nat } else { 0nat }
    }
}

/// The faces give one triangle for each face that lists three indices, in
/// the order of the faces, and the corners of the triangle of such a face are
/// the vertices at the three indices it lists, in the order it lists them.
pub proof fn lemma_faces_corners(faces: Seq<ElementView>, verts: Seq<Point>)
    ensures
        faces_spec(faces, verts) matches Ok(tris) ==> {
            &&& tris.len() == triangle_face_count(faces)
            &&& forall|j: int| 0 <= j < faces.len() && #[trigger] is_triangle_face(faces[j]) ==> {
                let idx = face_indices(faces[j]);
                &&& 0 <= idx[0] < verts.len() && 0 <= idx[1] < verts.len() && 0 <= idx[2] < verts.len()
                &&& triangle_face_count(faces.take(j)) < tris.len()
                &&& tris[triangle_face_count(faces.take(j)) as int]
                    == (verts[idx[0] as int], verts[idx[1] as int], verts[idx[2] as int])
            }
        },
    decreases faces.len(),
{
    if faces.len() > 0 {
        let prefix = faces.drop_last();
        let n = faces.len() - 1;
        lemma_faces_corners(prefix, verts);
        if let Ok(tris) = faces_spec(faces, verts) {
            let tp = faces_spec(prefix, verts)->Ok_0;
            assert forall|j: int| 0 <= j < faces.len() && #[trigger] is_triangle_face(faces[j]) implies {
                let idx = face_indices(faces[j]);
                &&& 0 <= idx[0] < verts.len() && 0 <= idx[1] < verts.len() && 0 <= idx[2] < verts.len()
                &&& triangle_face_count(faces.take(j)) < tris.len()
                &&& tris[triangle_face_count(faces.take(j)) as int]
                    == (verts[idx[0] as int], verts[idx[1] as int], verts[idx[2] as int])
            } by {
                let f = faces.last();
                assert(prefix =~= faces.drop_last());
                assert(faces_spec(prefix, verts) is Ok);
                if is_triangle_face(f) {
                    let idx = face_indices(f);
                    assert(indices_in_range(idx, verts.len() as int));
                    assert(tris == tp.push((verts[idx[0] as int], verts[idx[1] as int], verts[idx[2] as int])));
                    assert(triangle_face_count(faces) == triangle_face_count(prefix) + 1);
                } else {
                    assert(tris == tp);
                }
                if j < n {
                    assert(faces.take(j) =~= prefix.take(j));
                    assert(faces[j] == prefix[j]);
                    assert(is_triangle_face(prefix[j]));
                } else {
                    assert(faces.take(j) =~= prefix);
                    assert(faces[j] == f);
                }
            }
        }
    }
}

/// The point of a vertex element has, as each of its coordinates, the value
/// of the property of that name when it is a `float`, and `+0` when it is of
/// another kind.
pub proof fn lemma_vertex_coordinates(e: ElementView)
    ensures
        e["x"@] matches PlyValueView::Float(x) ==> vertex_of(e).x == x,
        e["y"@] matches PlyValueView::Float(y) ==> vertex_of(e).y == y,
        e["z"@] matches PlyValueView::Float(z) ==> vertex_of(e).z == z,
        !(e["x"@] is Float) ==> vertex_of(e).x == (Scalar { bits: 0 }),
        !(e["y"@] is Float) ==> vertex_of(e).y == (Scalar { bits: 0 }),
        !(e["z"@] is Float) ==> vertex_of(e).z == (Scalar { bits: 0 }),
{
}

/// The triangles of a model are its triangle faces in order, and the corners
/// of the triangle of a face are the points of the vertex elements at the
/// indices the face lists: the triangle of the face `faces[j]` that lists
/// `i0, i1, i2` is `(vertex_of(vertex[i0]), vertex_of(vertex[i1]),
/// vertex_of(vertex[i2]))`.
pub proof fn lemma_model_corners(payload: PayloadView)
    ensures
        model_spec(payload) matches Ok(tris) ==> {
            let faces = payload["face"@];
            let vertex = payload["vertex"@];
            &&& tris.len() == triangle_face_count(faces)
            &&& forall|j: int| 0 <= j < faces.len() && #[trigger] is_triangle_face(faces[j]) ==> {
                let idx = face_indices(faces[j]);
                &&& 0 <= idx[0] < vertex.len() && 0 <= idx[1] < vertex.len() && 0 <= idx[2] < vertex.len()
                &&& tris[triangle_face_count(faces.take(j)) as int] == (
                    vertex_of(vertex[idx[0] as int]),
                    vertex_of(vertex[idx[1] as int]),
                    vertex_of(vertex[idx[2] as int]),
                )
            }
        },
{
    if model_spec(payload) is Ok {
        let faces = payload["face"@];
        let vertex = payload["vertex"@];
        let verts = vertex.map_values(|e: ElementView| vertex_of(e));
        lemma_faces_corners(faces, verts);
    }
}

} // verus!
