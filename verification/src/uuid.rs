//! The fixed-size asset identifier and its parsing from metadata text.
//!
//! An identifier is 16 raw bytes whose canonical text form is 32 lowercase
//! hex characters, two per byte. It is parsed from a `guid: <value>` line
//! inside a metadata file.

use vstd::prelude::*;
use vstd::string::*;

verus! {

/// Why reading an identifier out of metadata text failed.
#[derive(Clone, Copy, Debug, PartialEq, Eq, Structural)]
pub enum UuidError {
    /// No `guid:` line was found in the metadata text.
    MissingIdentifier,
    /// A `guid:` line was found but its value is not 32 hex characters.
    MalformedIdentifier,
}

/// A fixed 16-byte asset identifier.
#[derive(Clone, Copy, Debug)]
pub struct Uuid {
    hash_bytes: [u8; 16],
}

impl View for Uuid {
    type V = Seq<u8>;

    closed spec fn view(&self) -> Seq<u8> {
        self.hash_bytes@
    }
}

impl PartialEq for Uuid {
    /// Identifiers are equal exactly when their 16 bytes are equal.
    fn eq(&self, other: &Uuid) -> (r: bool) {
        let mut index: usize = 0;
        while index < 16
            invariant
                index <= 16,
                forall|j: int| 0 <= j < index ==> self.hash_bytes@[j] == other.hash_bytes@[j],
            decreases 16 - index,
        {
            if self.hash_bytes[index] != other.hash_bytes[index] {
                return false;
            }
            index += 1;
        }
        proof {
            assert(self.hash_bytes@ =~= other.hash_bytes@);
        }
        true
    }
}

impl Eq for Uuid {}

impl vstd::std_specs::cmp::PartialEqSpecImpl for Uuid {
    open spec fn obeys_eq_spec() -> bool {
        true
    }

    open spec fn eq_spec(&self, other: &Uuid) -> bool {
        self@ == other@
    }
}

/// Whether `c` is a hex digit (either case accepted on input).
pub open spec fn is_hex_digit(c: char) -> bool {
    (48 <= c as int && c as int <= 57) || (97 <= c as int && c as int <= 102) || (65 <= c as int
        && c as int <= 70)
}

/// The numeric value of a hex digit (0 for a non-digit).
pub open spec fn hex_val(c: char) -> u8 {
    if 48 <= c as int && c as int <= 57 {
        (c as int - 48) as u8
    } else if 97 <= c as int && c as int <= 102 {
        (c as int - 87) as u8
    } else if 65 <= c as int && c as int <= 70 {
        (c as int - 55) as u8
    } else {
        0
    }
}

/// The canonical (lowercase) digit for a value below 16.
pub open spec fn hex_char(n: u8) -> char {
    if n == 0 {
        '0'
    } else if n == 1 {
        '1'
    } else if n == 2 {
        '2'
    } else if n == 3 {
        '3'
    } else if n == 4 {
        '4'
    } else if n == 5 {
        '5'
    } else if n == 6 {
        '6'
    } else if n == 7 {
        '7'
    } else if n == 8 {
        '8'
    } else if n == 9 {
        '9'
    } else if n == 10 {
        'a'
    } else if n == 11 {
        'b'
    } else if n == 12 {
        'c'
    } else if n == 13 {
        'd'
    } else if n == 14 {
        'e'
    } else {
        'f'
    }
}

/// What `Uuid::from` accepts: exactly 32 hex characters, each consecutive
/// pair giving one byte.
pub open spec fn spec_parse_uuid(s: Seq<char>) -> Option<Seq<u8>> {
    if s.len() == 32 && (forall|i: int| 0 <= i < 32 ==> is_hex_digit(#[trigger] s[i])) {
        Some(Seq::new(16, |i: int| (hex_val(s[2 * i]) * 16 + hex_val(s[2 * i + 1])) as u8))
    } else {
        None
    }
}

/// The canonical text form of 16 bytes: two lowercase hex digits per byte,
/// concatenated without separators.
pub open spec fn spec_render_uuid(b: Seq<u8>) -> Seq<char> {
    Seq::new(
        32,
        |i: int|
            if i % 2 == 0 {
                hex_char((b[i / 2] / 16) as u8)
            } else {
                hex_char((b[i / 2] % 16) as u8)
            },
    )
}

/// Whitespace that may surround the value on a `guid:` line.
pub open spec fn is_space(c: char) -> bool {
    c == ' ' || c == '\t' || c == '\r'
}

/// `s` with leading whitespace removed.
pub open spec fn spec_trim_front(s: Seq<char>) -> Seq<char>
    decreases s.len(),
{
    if s.len() > 0 && is_space(s[0]) {
        spec_trim_front(s.drop_first())
    } else {
        s
    }
}

/// `s` with trailing whitespace removed.
pub open spec fn spec_trim_back(s: Seq<char>) -> Seq<char>
    decreases s.len(),
{
    if s.len() > 0 && is_space(s[s.len() - 1]) {
        spec_trim_back(s.drop_last())
    } else {
        s
    }
}

/// `s` with leading and trailing whitespace removed.
pub open spec fn spec_trim(s: Seq<char>) -> Seq<char> {
    spec_trim_back(spec_trim_front(s))
}

/// The number of characters before the first line break in `s` (the length
/// of `s` if it has none).
pub open spec fn first_newline(s: Seq<char>) -> int
    decreases s.len(),
{
    if s.len() == 0 {
        0
    } else if s[0] == '\n' {
        0
    } else {
        1 + first_newline(s.drop_first())
    }
}

/// `first_newline` is the index of the first `'\n'`, found by exhibiting a
/// break-free prefix up to `k`.
proof fn lemma_first_newline_at(s: Seq<char>, k: int)
    requires
        0 <= k <= s.len(),
        forall|j: int| 0 <= j < k ==> s[j] != '\n',
        k == s.len() || s[k] == '\n',
    ensures
        first_newline(s) == k,
    decreases k,
{
    if k > 0 {
        lemma_first_newline_at(s.drop_first(), k - 1);
    }
}

/// Whether a line starts with the (case-sensitive) key `guid:`.
pub open spec fn has_guid_prefix(line: Seq<char>) -> bool {
    line.len() >= 5 && line[0] == 'g' && line[1] == 'u' && line[2] == 'i' && line[3] == 'd'
        && line[4] == ':'
}

/// The trimmed value of the first `guid:` line of `s`, if any line carries
/// that prefix.
pub open spec fn spec_find_guid_value(s: Seq<char>) -> Option<Seq<char>>
    decreases s.len(),
{
    let k = if 0 <= first_newline(s) && first_newline(s) <= s.len() {
        first_newline(s)
    } else {
        s.len() as int
    };
    let line = s.take(k);
    if has_guid_prefix(line) {
        Some(spec_trim(line.skip(5)))
    } else if k == s.len() {
        None
    } else {
        spec_find_guid_value(s.skip(k + 1))
    }
}

/// The numeric value of one hex digit character, if it is one.
fn nibble_of(c: char) -> (r: Option<u8>)
    ensures
        r is Some <==> is_hex_digit(c),
        r is Some ==> r->0 == hex_val(c) && r->0 < 16,
{
    let v = c as u32;
    if 48 <= v && v <= 57 {
        Some((v - 48) as u8)
    } else if 97 <= v && v <= 102 {
        Some((v - 87) as u8)
    } else if 65 <= v && v <= 70 {
        Some((v - 55) as u8)
    } else {
        None
    }
}

/// Whether `c` is whitespace that `guid:`-line trimming removes.
fn is_space_char(c: char) -> (r: bool)
    ensures
        r == is_space(c),
{
    c == ' ' || c == '\t' || c == '\r'
}

/// Appends the canonical digit for a value below 16.
fn append_hex_char(out: &mut String, n: u8)
    requires
        n < 16,
    ensures
        final(out)@ == old(out)@ + seq![hex_char(n)],
{
    proof {
        reveal_strlit("0");
        reveal_strlit("1");
        reveal_strlit("2");
        reveal_strlit("3");
        reveal_strlit("4");
        reveal_strlit("5");
        reveal_strlit("6");
        reveal_strlit("7");
        reveal_strlit("8");
        reveal_strlit("9");
        reveal_strlit("a");
        reveal_strlit("b");
        reveal_strlit("c");
        reveal_strlit("d");
        reveal_strlit("e");
        reveal_strlit("f");
    }
    if n == 0 {
        out.append("0");
    } else if n == 1 {
        out.append("1");
    } else if n == 2 {
        out.append("2");
    } else if n == 3 {
        out.append("3");
    } else if n == 4 {
        out.append("4");
    } else if n == 5 {
        out.append("5");
    } else if n == 6 {
        out.append("6");
    } else if n == 7 {
        out.append("7");
    } else if n == 8 {
        out.append("8");
    } else if n == 9 {
        out.append("9");
    } else if n == 10 {
        out.append("a");
    } else if n == 11 {
        out.append("b");
    } else if n == 12 {
        out.append("c");
    } else if n == 13 {
        out.append("d");
    } else if n == 14 {
        out.append("e");
    } else {
        out.append("f");
    }
    proof {
        assert(out@ =~= old(out)@ + seq![hex_char(n)]);
    }
}

impl Uuid {
    /// Parses the canonical 32-hex-character text form. Any shorter, longer
    /// or non-hex input is rejected.
    pub fn from(input: &str) -> (r: Option<Uuid>)
        ensures
            match r {
                Some(u) => spec_parse_uuid(input@) == Some(u@),
                None => spec_parse_uuid(input@) is None,
            },
    {
        if input.unicode_len() != 32 {
            return None;
        }
        let mut bytes = [0u8; 16];
        for index in 0..16usize
            invariant
                input@.len() == 32,
                forall|j: int| 0 <= j < 2 * index ==> is_hex_digit(#[trigger] input@[j]),
                forall|j: int|
                    0 <= j < index ==> bytes@[j] == (hex_val(input@[2 * j]) * 16 + hex_val(
                        input@[2 * j + 1],
                    )) as u8,
        {
            let hi = input.get_char(2 * index);
            let lo = input.get_char(2 * index + 1);
            match (nibble_of(hi), nibble_of(lo)) {
                (Some(h), Some(l)) => {
                    bytes[index] = h * 16 + l;
                },
                _ => {
                    return None;
                },
            }
        }
        let result = Uuid { hash_bytes: bytes };
        proof {
            assert(spec_parse_uuid(input@)->0 =~= result@);
        }
        Some(result)
    }

    /// Scans the metadata text line by line for the first `guid:` prefix,
    /// trims the value and parses it. Fails when no line carries the prefix
    /// or when the value is not 32 hex characters.
    pub fn from_meta_content(text: &str) -> (r: Result<Uuid, UuidError>)
        ensures
            match spec_find_guid_value(text@) {
                None => r == Err::<Uuid, UuidError>(UuidError::MissingIdentifier),
                Some(v) => match spec_parse_uuid(v) {
                    None => r == Err::<Uuid, UuidError>(UuidError::MalformedIdentifier),
                    Some(b) => r is Ok && r->Ok_0@ == b,
                },
            },
    {
        let len = text.unicode_len();
        let mut pos: usize = 0;
        proof {
            assert(text@.skip(0) =~= text@);
        }
        loop
            invariant
                len == text@.len(),
                pos <= len,
                spec_find_guid_value(text@) == spec_find_guid_value(text@.skip(pos as int)),
            decreases len - pos,
        {
            let ghost t = text@.skip(pos as int);
            // Find the end of the current line.
            let mut line_end: usize = pos;
            while line_end < len && text.get_char(line_end) != '\n'
                invariant
                    len == text@.len(),
                    pos <= line_end <= len,
                    forall|j: int| pos <= j < line_end ==> text@[j] != '\n',
                decreases len - line_end,
            {
                line_end += 1;
            }
            let ghost k = line_end - pos;
            proof {
                assert forall|j: int| 0 <= j < k implies t[j] != '\n' by {
                    assert(t[j] == text@[pos + j]);
                }
                if line_end < len {
                    assert(t[k] == text@[line_end as int]);
                }
                lemma_first_newline_at(t, k);
                assert(t.take(k) =~= text@.subrange(pos as int, line_end as int));
            }
            // Does this line carry the `guid:` key?
            let has_prefix = line_end - pos >= 5 && text.get_char(pos) == 'g' && text.get_char(
                pos + 1,
            ) == 'u' && text.get_char(pos + 2) == 'i' && text.get_char(pos + 3) == 'd'
                && text.get_char(pos + 4) == ':';
            proof {
                assert(has_prefix == has_guid_prefix(t.take(k)));
            }
            if has_prefix {
                let ghost raw = t.take(k).skip(5);
                proof {
                    assert(raw =~= text@.subrange(pos + 5, line_end as int));
                }
                // Trim whitespace around the value.
                let mut vs: usize = pos + 5;
                while vs < line_end && is_space_char(text.get_char(vs))
                    invariant
                        len == text@.len(),
                        pos + 5 <= vs <= line_end <= len,
                        spec_trim_front(raw) == spec_trim_front(
                            text@.subrange(vs as int, line_end as int),
                        ),
                    decreases line_end - vs,
                {
                    proof {
                        let cur = text@.subrange(vs as int, line_end as int);
                        assert(cur.drop_first() =~= text@.subrange(vs + 1, line_end as int));
                    }
                    vs += 1;
                }
                proof {
                    let cur = text@.subrange(vs as int, line_end as int);
                    assert(spec_trim_front(raw) == cur);
                }
                let mut ve: usize = line_end;
                while ve > vs && is_space_char(text.get_char(ve - 1))
                    invariant
                        len == text@.len(),
                        vs <= ve <= line_end <= len,
                        spec_trim_back(spec_trim_front(raw)) == spec_trim_back(
                            text@.subrange(vs as int, ve as int),
                        ),
                    decreases ve,
                {
                    proof {
                        let cur = text@.subrange(vs as int, ve as int);
                        assert(cur.drop_last() =~= text@.subrange(vs as int, ve - 1));
                    }
                    ve -= 1;
                }
                proof {
                    let cur = text@.subrange(vs as int, ve as int);
                    assert(spec_trim(raw) == cur);
                }
                let value = text.substring_char(vs, ve);
                proof {
                    assert(spec_find_guid_value(text@) == Some(value@));
                }
                match Uuid::from(value) {
                    Some(u) => {
                        return Ok(u);
                    },
                    None => {
                        return Err(UuidError::MalformedIdentifier);
                    },
                }
            } else if line_end == len {
                proof {
                    assert(spec_find_guid_value(t) is None);
                }
                return Err(UuidError::MissingIdentifier);
            } else {
                proof {
                    assert(spec_find_guid_value(t) == spec_find_guid_value(t.skip(k + 1)));
                    assert(t.skip(k + 1) =~= text@.skip(line_end + 1));
                }
                pos = line_end + 1;
            }
        }
    }

    /// One byte of the identifier.
    pub fn byte_at(&self, index: usize) -> (b: u8)
        requires
            index < 16,
        ensures
            b == self@[index as int],
    {
        self.hash_bytes[index]
    }

    /// The canonical text form: 32 lowercase hex characters, two per byte.
    pub fn render_text(&self) -> (r: String)
        ensures
            r@ == spec_render_uuid(self@),
    {
        let mut out = String::new();
        for index in 0..16usize
            invariant
                out@ =~= spec_render_uuid(self@).take(2 * index),
        {
            let b = self.hash_bytes[index];
            append_hex_char(&mut out, b / 16);
            append_hex_char(&mut out, b % 16);
            proof {
                assert(out@ =~= spec_render_uuid(self@).take(2 * (index + 1)));
            }
        }
        proof {
            assert(out@ =~= spec_render_uuid(self@));
        }
        out
    }
}

/// An identifier always holds exactly 16 bytes.
pub proof fn lemma_uuid_len(u: Uuid)
    ensures
        u@.len() == 16,
{
    assert(u.hash_bytes@.len() == 16);
}

/// Rendering any 16 bytes in the canonical text form and parsing the text
/// back recovers exactly those bytes.
pub proof fn lemma_uuid_round_trip(b: Seq<u8>)
    requires
        b.len() == 16,
    ensures
        spec_parse_uuid(spec_render_uuid(b)) == Some(b),
{
    let s = spec_render_uuid(b);
    assert forall|i: int| 0 <= i < 32 implies is_hex_digit(#[trigger] s[i]) by {
        if i % 2 == 0 {
            assert(b[i / 2] / 16 < 16);
        } else {
            assert(b[i / 2] % 16 < 16);
        }
    }
    let p = spec_parse_uuid(s)->0;
    assert forall|i: int| 0 <= i < 16 implies p[i] == b[i] by {
        assert(s[2 * i] == hex_char((b[i] / 16) as u8));
        assert(s[2 * i + 1] == hex_char((b[i] % 16) as u8));
        assert(b[i] / 16 < 16);
        assert(hex_val(hex_char((b[i] / 16) as u8)) == b[i] / 16);
        assert(hex_val(hex_char((b[i] % 16) as u8)) == b[i] % 16);
        assert(b[i] / 16 * 16 + b[i] % 16 == b[i]);
    }
    assert(p =~= b);
}

} // verus!
