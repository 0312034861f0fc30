//! Stable symbol ids: `language::relative_path::kind::name::fingerprint`,
//! where the fingerprint is the first four bytes of the blake3 hash of
//! `name::path::language::kind`, in lower-case hex.
use vstd::prelude::*;
use vstd::string::StringExecFns;

use crate::text::{
    chars_of, contains_seq, decimal, decimal_string, find_first, has_suffix, lemma_find_from, occurs_at, path_sep,
    path_sep_chars, find_chars, slice_to_vec, string_of,
};

verus! {

/// A stable symbol id.
#[derive(Debug, Clone, PartialEq, Eq)]
pub struct StableSymbolId {
    /// Language (`rust`, `typescript`, `java`, ...).
    pub language: String,
    /// File path relative to the project root.
    pub relative_path: String,
    /// Symbol kind.
    pub kind: String,
    /// Symbol name.
    pub name: String,
    /// Fingerprint: eight lower-case hex digits.
    pub fingerprint: String,
}

/// The UTF-8 encoding of a character.
pub open spec fn utf8_char(c: char) -> Seq<u8> {
    let u = c as u32 as int;
    if u < 0x80 {
        seq![u as u8]
    } else if u < 0x800 {
        seq![(0xc0 + u / 64) as u8, (0x80 + u % 64) as u8]
    } else if u < 0x10000 {
        seq![(0xe0 + u / 4096) as u8, (0x80 + (u / 64) % 64) as u8, (0x80 + u % 64) as u8]
    } else {
        seq![(0xf0 + u / 262144) as u8, (0x80 + (u / 4096) % 64) as u8, (0x80 + (u / 64) % 64) as u8, (0x80 + u % 64) as u8]
    }
}

/// The UTF-8 encoding of a text.
pub open spec fn utf8(s: Seq<char>) -> Seq<u8>
    decreases s.len(),
{
    if s.len() == 0 {
        Seq::empty()
    } else {
        utf8(s.drop_last()) + utf8_char(s.last())
    }
}

/// The bytes of a string slice, which are its UTF-8 encoding
/// (`str::as_bytes`).
#[verifier::external_body]
pub(crate) fn str_bytes(s: &str) -> (r: &[u8])
    ensures
        r@ == utf8(s@),
{
    s.as_bytes()
}

/// The 32-byte blake3 hash of `data`.
pub uninterp spec fn blake3_digest(data: Seq<u8>) -> Seq<u8>;

/// Calls `blake3::hash`: the 32-byte (`OUT_LEN`) blake3 hash of `data`.
#[verifier::external_body]
pub(crate) fn blake3_hash(data: &[u8]) -> (r: Vec<u8>)
    ensures
        r@ == blake3_digest(data@),
        r@.len() == 32,
{
    blake3::hash(data).as_bytes().to_vec()
}

/// A lower-case hex digit.
pub open spec fn hex_digit(d: int) -> char {
    if d < 10 {
        (('0' as u32) + d) as char
    } else {
        (('a' as u32) + d - 10) as char
    }
}

/// Bytes as lower-case hex, two digits per byte, high digit first.
pub open spec fn hex_lower(data: Seq<u8>) -> Seq<char>
    decreases data.len(),
{
    if data.len() == 0 {
        Seq::empty()
    } else {
        hex_lower(data.drop_last()) + seq![hex_digit(data.last() as int / 16), hex_digit(data.last() as int % 16)]
    }
}

/// Calls `hex::encode`: `data` as lower-case hex, two digits per byte.
#[verifier::external_body]
pub(crate) fn hex_encode(data: &[u8]) -> (r: String)
    ensures
        r@ == hex_lower(data@),
{
    hex::encode(data)
}

/// Hex doubles the length.
pub proof fn lemma_hex_len(data: Seq<u8>)
    ensures
        hex_lower(data).len() == 2 * data.len(),
    decreases data.len(),
{
    if data.len() > 0 {
        lemma_hex_len(data.drop_last());
    }
}

/// The text hashed for a fingerprint: `name::path::language::kind`.
pub open spec fn fingerprint_input(language: Seq<char>, path: Seq<char>, kind: Seq<char>, name: Seq<char>) -> Seq<char> {
    name + path_sep() + path + path_sep() + language + path_sep() + kind
}

/// The fingerprint of a symbol: the first four bytes of the blake3 hash of
/// its fingerprint input, in lower-case hex.
pub open spec fn fingerprint_of(language: Seq<char>, path: Seq<char>, kind: Seq<char>, name: Seq<char>) -> Seq<char> {
    hex_lower(blake3_digest(utf8(fingerprint_input(language, path, kind, name))).take(4))
}

/// The storage text of an id: its five fields joined by `::`.
pub open spec fn storage_text(id: StableSymbolId) -> Seq<char> {
    id.language@ + path_sep() + id.relative_path@ + path_sep() + id.kind@ + path_sep() + id.name@ + path_sep()
        + id.fingerprint@
}

/// The pieces of `s` between the occurrences of `::`, as `str::split`
/// gives them.
pub open spec fn split_fields(s: Seq<char>) -> Seq<Seq<char>>
    decreases s.len(),
{
    match find_first(s, path_sep()) {
        Some(k) => if 0 <= k && k + 2 <= s.len() {
            seq![s.take(k)] + split_fields(s.skip(k + 2))
        } else {
            seq![s]
        },
        None => seq![s],
    }
}

/// The error text of a malformed id.
pub open spec fn parse_error_text(count: nat, s: Seq<char>) -> Seq<char> {
    "无效的符号 ID 格式，期望 5 个字段实际得到 "@ + decimal(count) + " 个: "@ + s
}

/// Appends `b` to `a`.
fn append_str(a: &mut String, b: &str)
    ensures
        final(a)@ == old(a)@ + b@,
{
    a.append(b);
}

impl StableSymbolId {
    /// The fingerprint of `name::path::language::kind`.
    fn compute_fingerprint(language: &str, path: &str, kind: &str, name: &str) -> (r: String)
        ensures
            r@ == fingerprint_of(language@, path@, kind@, name@),
            r@.len() == 8,
    {
        let mut input = name.to_string();
        append_str(&mut input, "::");
        append_str(&mut input, path);
        append_str(&mut input, "::");
        append_str(&mut input, language);
        append_str(&mut input, "::");
        append_str(&mut input, kind);
        proof {
            reveal_strlit("::");
            assert("::"@ =~= path_sep());
            assert(input@ =~= fingerprint_input(language@, path@, kind@, name@));
        }
        let hash = blake3_hash(str_bytes(input.as_str()));
        let mut first: Vec<u8> = Vec::new();
        let mut i: usize = 0;
        while i < 4
            invariant
                i <= 4,
                hash@.len() == 32,
                first@ == hash@.take(i as int),
            decreases 4 - i,
        {
            first.push(hash[i]);
            proof {
                assert(first@ =~= hash@.take(i + 1));
            }
            i = i + 1;
        }
        proof {
            lemma_hex_len(first@);
        }
        hex_encode(first.as_slice())
    }

    /// A new id; the fingerprint is computed (see `fingerprint_of`).
    pub fn new(language: &str, relative_path: &str, kind: &str, name: &str) -> (r: StableSymbolId)
        ensures
            r.language@ == language@,
            r.relative_path@ == relative_path@,
            r.kind@ == kind@,
            r.name@ == name@,
            r.fingerprint@ == fingerprint_of(language@, relative_path@, kind@, name@),
            r.fingerprint@.len() == 8,
    {
        let fingerprint = Self::compute_fingerprint(language, relative_path, kind, name);
        StableSymbolId {
            language: language.to_string(),
            relative_path: relative_path.to_string(),
            kind: kind.to_string(),
            name: name.to_string(),
            fingerprint,
        }
    }

    /// The storage form `language::relative_path::kind::name::fingerprint`.
    pub fn to_storage_string(&self) -> (r: String)
        ensures
            r@ == storage_text(*self),
    {
        let mut s = self.language.clone();
        append_str(&mut s, "::");
        append_str(&mut s, self.relative_path.as_str());
        append_str(&mut s, "::");
        append_str(&mut s, self.kind.as_str());
        append_str(&mut s, "::");
        append_str(&mut s, self.name.as_str());
        append_str(&mut s, "::");
        append_str(&mut s, self.fingerprint.as_str());
        proof {
            reveal_strlit("::");
            assert("::"@ =~= path_sep());
            assert(s@ =~= storage_text(*self));
        }
        s
    }

    /// Parses the storage form: the text split at every `::` must give
    /// exactly five fields; otherwise the error names the field count and
    /// the text.
    pub fn parse(s: &str) -> (r: Result<StableSymbolId, String>)
        ensures
            split_fields(s@).len() == 5 <==> r is Ok,
            r matches Ok(id) ==> seq![id.language@, id.relative_path@, id.kind@, id.name@, id.fingerprint@] == split_fields(s@),
            r matches Err(e) ==> e@ == parse_error_text(split_fields(s@).len(), s@),
    {
        let chars = chars_of(s);
        let parts = split_all(chars.as_slice());
        if parts.len() != 5 {
            let mut msg = "无效的符号 ID 格式，期望 5 个字段实际得到 ".to_string();
            let count = decimal_string(parts.len() as u64);
            append_str(&mut msg, count.as_str());
            append_str(&mut msg, " 个: ");
            append_str(&mut msg, s);
            return Err(msg);
        }
        let id = StableSymbolId {
            language: string_of(parts[0].as_slice()),
            relative_path: string_of(parts[1].as_slice()),
            kind: string_of(parts[2].as_slice()),
            name: string_of(parts[3].as_slice()),
            fingerprint: string_of(parts[4].as_slice()),
        };
        proof {
            assert(seq![id.language@, id.relative_path@, id.kind@, id.name@, id.fingerprint@] =~= split_fields(s@));
        }
        Ok(id)
    }
}

/// The contents of a list of character vectors.
pub open spec fn pieces_view(v: Seq<Vec<char>>) -> Seq<Seq<char>> {
    v.map_values(|x: Vec<char>| x@)
}

/// Splits `s` at every `::` (see `split_fields`).
fn split_all(s: &[char]) -> (r: Vec<Vec<char>>)
    ensures
        pieces_view(r@) == split_fields(s@),
        r.len() <= s.len() + 1,
{
    let sep = path_sep_chars();
    let mut r: Vec<Vec<char>> = Vec::new();
    let mut i: usize = 0;
    proof {
        assert(s@.skip(0) =~= s@);
        assert(pieces_view(r@) + split_fields(s@.skip(0)) =~= split_fields(s@));
    }
    loop
        invariant
            i <= s.len(),
            sep@ == path_sep(),
            pieces_view(r@) + split_fields(s@.skip(i as int)) == split_fields(s@),
            r.len() <= i,
        decreases s.len() - i,
    {
        let rest = slice_to_vec(s, i, s.len());
        proof {
            assert(rest@ =~= s@.skip(i as int));
        }
        match find_chars(rest.as_slice(), sep.as_slice(), 0) {
            Some(k) => {
                proof {
                    lemma_find_from(rest@, sep@, 0);
                    assert(occurs_at(rest@, sep@, k as int));
                }
                let ghost before = r@;
                r.push(slice_to_vec(rest.as_slice(), 0, k));
                proof {
                    assert(rest@.skip(k + 2) =~= s@.skip(i + k + 2));
                    assert(pieces_view(r@) =~= pieces_view(before).push(rest@.take(k as int)));
                    assert(pieces_view(r@) + split_fields(s@.skip(i + k + 2)) =~= pieces_view(before) + split_fields(rest@));
                }
                i = i + k + 2;
            },
            None => {
                let ghost before = r@;
                r.push(rest);
                proof {
                    assert(pieces_view(r@) =~= pieces_view(before) + split_fields(s@.skip(i as int)));
                }
                return r;
            },
        }
    }
}

/// The fields of an id survive the storage form whenever none of the first
/// four contains `::` or ends with `:`, and the fingerprint contains no
/// `::`: the storage text (what `to_storage_string` gives) splits into
/// exactly five fields, so `parse` succeeds on it, and they are the id's
/// own fields.
#[verifier::spinoff_prover]
#[verifier::rlimit(40)]
pub proof fn law_storage_round_trip(id: StableSymbolId)
    requires
        !contains_seq(id.language@, path_sep()) && !has_suffix(id.language@, seq![':']),
        !contains_seq(id.relative_path@, path_sep()) && !has_suffix(id.relative_path@, seq![':']),
        !contains_seq(id.kind@, path_sep()) && !has_suffix(id.kind@, seq![':']),
        !contains_seq(id.name@, path_sep()) && !has_suffix(id.name@, seq![':']),
        !contains_seq(id.fingerprint@, path_sep()),
    ensures
        split_fields(storage_text(id)).len() == 5,
        split_fields(storage_text(id)) == seq![id.language@, id.relative_path@, id.kind@, id.name@, id.fingerprint@],
{
    let f0 = id.language@;
    let f1 = id.relative_path@;
    let f2 = id.kind@;
    let f3 = id.name@;
    let f4 = id.fingerprint@;
    lemma_split_last(f4);
    lemma_split_head(f3, f4);
    assert(f3 + path_sep() + f4 =~= f3 + (path_sep() + f4));
    let t3 = f3 + path_sep() + f4;
    lemma_split_head(f2, t3);
    let t2 = f2 + path_sep() + t3;
    lemma_split_head(f1, t2);
    let t1 = f1 + path_sep() + t2;
    lemma_split_head(f0, t1);
    assert(storage_text(id) =~= f0 + path_sep() + t1);
    assert(split_fields(storage_text(id)) =~= seq![f0, f1, f2, f3, f4]);
}

/// A field without `::` splits to itself.
proof fn lemma_split_last(f: Seq<char>)
    requires
        !contains_seq(f, path_sep()),
    ensures
        split_fields(f) == seq![f],
{
    crate::text::lemma_contains_find(f, path_sep());
}

/// An occurrence of `::` inside the first field would be one in the field
/// or would make the field end with `:`.
proof fn lemma_no_early_sep(f: Seq<char>, rest: Seq<char>, j: int)
    requires
        !contains_seq(f, path_sep()),
        !has_suffix(f, seq![':']),
        0 <= j < f.len(),
    ensures
        !occurs_at(f + path_sep() + rest, path_sep(), j),
{
    let s = f + path_sep() + rest;
    let k = f.len() as int;
    if occurs_at(s, path_sep(), j) {
        assert(s.subrange(j, j + 2)[0] == ':');
        assert(s.subrange(j, j + 2)[1] == ':');
        assert(s[j] == ':');
        assert(s[j + 1] == ':');
        if j + 2 <= k {
            assert(f[j] == ':' && f[j + 1] == ':');
            assert(f.subrange(j, j + 2) =~= path_sep());
            assert(occurs_at(f, path_sep(), j));
        } else {
            assert(f[k - 1] == ':');
            assert(f.subrange(k - 1, k) =~= seq![':']);
            assert(occurs_at(f, seq![':'], k - 1));
        }
    }
}

/// A field without `::` and not ending in `:`, followed by `::`, splits off
/// first.
#[verifier::rlimit(30)]
proof fn lemma_split_head(f: Seq<char>, rest: Seq<char>)
    requires
        !contains_seq(f, path_sep()),
        !has_suffix(f, seq![':']),
    ensures
        split_fields(f + path_sep() + rest) == seq![f] + split_fields(rest),
{
    let s = f + path_sep() + rest;
    let k = f.len() as int;
    assert(occurs_at(s, path_sep(), k)) by {
        assert(s.subrange(k, k + 2) =~= path_sep());
    }
    assert forall|j: int| 0 <= j < k implies !occurs_at(s, path_sep(), j) by {
        lemma_no_early_sep(f, rest, j);
    }
    lemma_find_from(s, path_sep(), 0);
    assert(find_first(s, path_sep()) == Some(k)) by {
        match find_first(s, path_sep()) {
            Some(m) => {
                if m > k {
                    assert(!occurs_at(s, path_sep(), k));
                }
            },
            None => {
                assert(!occurs_at(s, path_sep(), k));
            },
        }
    }
    assert(s.take(k) =~= f);
    assert(s.skip(k + 2) =~= rest);
}

} // verus!
