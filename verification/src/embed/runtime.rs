//! Whether a found ONNX Runtime library is recent enough: the minor number
//! of the version text it reports must reach the API version the embedder
//! was built for. Loading the library and asking it for the text are the
//! caller's part.
use vstd::prelude::*;

use crate::text::{append_str, chars_of, find_chars, find_first, find_from, lemma_find_from, occurs_at, push_decimal, slice_to_vec, string_of};

verus! {

/// A decimal digit.
pub open spec fn is_digit(c: char) -> bool {
    '0' <= c && c <= '9'
}

/// The value of a digit string.
pub open spec fn digits_value(d: Seq<char>) -> nat
    decreases d.len(),
{
    if d.len() == 0 {
        0
    } else {
        digits_value(d.drop_last()) * 10 + (d.last() as nat - '0' as nat) as nat
    }
}

/// The text after an optional leading `+`.
pub open spec fn unsigned_digits(s: Seq<char>) -> Seq<char> {
    if s.len() > 0 && s[0] == '+' {
        s.skip(1)
    } else {
        s
    }
}

/// The `u32` a text denotes as `str::parse::<u32>` reads it: an optional
/// `+`, then one or more decimal digits, with a value that fits.
pub open spec fn u32_value(s: Seq<char>) -> Option<u32> {
    let d = unsigned_digits(s);
    if d.len() > 0 && (forall|i: int| 0 <= i < d.len() ==> is_digit(#[trigger] d[i])) && digits_value(d) <= u32::MAX {
        Some(digits_value(d) as u32)
    } else {
        None
    }
}

/// Appending a digit never lowers the value.
proof fn lemma_digits_grow(d: Seq<char>, k: int)
    requires
        0 <= k <= d.len(),
        forall|i: int| 0 <= i < d.len() ==> is_digit(#[trigger] d[i]),
    ensures
        digits_value(d.take(k)) <= digits_value(d),
    decreases d.len() - k,
{
    if k < d.len() {
        lemma_digits_grow(d, k + 1);
        assert(d.take(k + 1).drop_last() =~= d.take(k));
        assert(is_digit(d[k]));
    } else {
        assert(d.take(k) =~= d);
    }
}

/// Reads a `u32` as `str::parse::<u32>` does (see `u32_value`).
pub fn parse_u32(s: &[char]) -> (r: Option<u32>)
    ensures
        r == u32_value(s@),
{
    let start: usize = if s.len() > 0 && s[0] == '+' {
        1
    } else {
        0
    };
    let ghost d = unsigned_digits(s@);
    proof {
        assert(d =~= s@.skip(start as int));
    }
    if start >= s.len() {
        return None;
    }
    let mut acc: u64 = 0;
    let mut i: usize = start;
    while i < s.len()
        invariant
            start <= i <= s.len(),
            d == unsigned_digits(s@),
            d =~= s@.skip(start as int),
            forall|k: int| 0 <= k < i - start ==> is_digit(#[trigger] d[k]),
            acc == digits_value(d.take(i - start)),
            acc <= u32::MAX,
        decreases s.len() - i,
    {
        let c = s[i];
        if !('0' <= c && c <= '9') {
            proof {
                assert(d[i - start] == c);
                assert(!is_digit(d[i - start]));
                assert(!(forall|k: int| 0 <= k < d.len() ==> is_digit(#[trigger] d[k])));
                assert(unsigned_digits(s@) == d);
            }
            return None;
        }
        proof {
            assert(d[i - start] == c);
            assert(d.take(i - start + 1).drop_last() =~= d.take(i - start));
        }
        acc = acc * 10 + (c as u64 - '0' as u64);
        i = i + 1;
        proof {
            assert(acc == digits_value(d.take(i - start)));
        }
        if acc > 0xffff_ffff {
            proof {
                assert(unsigned_digits(s@) == d);
                if forall|k: int| 0 <= k < d.len() ==> is_digit(#[trigger] d[k]) {
                    lemma_digits_grow(d, i - start);
                    assert(digits_value(d) > u32::MAX);
                }
            }
            return None;
        }
    }
    proof {
        assert(d.take(i - start) =~= d);
    }
    Some(acc as u32)
}

/// The second `.`-separated field of a version text, if it has one.
pub open spec fn second_field(v: Seq<char>) -> Option<Seq<char>> {
    match find_first(v, seq!['.']) {
        None => None,
        Some(i) => {
            let rest = v.skip(i + 1);
            match find_first(rest, seq!['.']) {
                None => Some(rest),
                Some(j) => Some(rest.take(j)),
            }
        },
    }
}

/// The minor number of a version text such as `1.20.1`: its second field
/// read as a `u32`, zero when it has none or it does not read.
pub open spec fn api_minor_of(v: Seq<char>) -> u32 {
    match second_field(v) {
        Some(f) => match u32_value(f) {
            Some(m) => m,
            None => 0,
        },
        None => 0,
    }
}

/// The minor number of a runtime's version text (see `api_minor_of`).
pub fn api_minor(version: &str) -> (r: u32)
    ensures
        r == api_minor_of(version@),
{
    let v = chars_of(version);
    let dot = vec!['.'];
    proof {
        assert(dot@ =~= seq!['.']);
    }
    match find_chars(v.as_slice(), dot.as_slice(), 0) {
        None => 0,
        Some(i) => {
            proof {
                lemma_find_from(v@, seq!['.'], 0);
                assert(find_from(v@, seq!['.'], 0) == Some(i as int));
                assert(occurs_at(v@, seq!['.'], i as int));
                assert(i < v.len());
            }
            let rest = slice_to_vec(v.as_slice(), i + 1, v.len());
            proof {
                assert(rest@ =~= v@.skip(i + 1));
            }
            let field = match find_chars(rest.as_slice(), dot.as_slice(), 0) {
                None => rest,
                Some(j) => {
                    proof {
                        lemma_find_from(rest@, seq!['.'], 0);
                    }
                    let f = slice_to_vec(rest.as_slice(), 0, j);
                    proof {
                        assert(f@ =~= rest@.take(j as int));
                    }
                    f
                },
            };
            match parse_u32(field.as_slice()) {
                Some(m) => m,
                None => 0,
            }
        },
    }
}

/// The refusal of a runtime older than the API the embedder was built for.
pub open spec fn too_old_text(path: Seq<char>, version: Seq<char>, required: nat) -> Seq<char> {
    "动态库版本过低："@ + path + " 报 "@ + version + "，本 crate 编译时选了 ONNX Runtime API 1."@
        + crate::text::decimal(required) + "（要求次版本 >= "@ + crate::text::decimal(required) + "）"@
}

/// Accepts the runtime at `path` reporting `version` when its minor number
/// reaches `required`; otherwise says that it is too old.
pub fn check_runtime_version(path: &str, version: &str, required: u32) -> (r: Result<(), String>)
    ensures
        api_minor_of(version@) >= required ==> r is Ok,
        api_minor_of(version@) < required ==> (r matches Err(m) && m@ == too_old_text(path@, version@, required as nat)),
{
    if api_minor(version) >= required {
        return Ok(());
    }
    let mut buf: Vec<char> = Vec::new();
    append_str(&mut buf, "动态库版本过低：");
    append_str(&mut buf, path);
    append_str(&mut buf, " 报 ");
    append_str(&mut buf, version);
    append_str(&mut buf, "，本 crate 编译时选了 ONNX Runtime API 1.");
    push_decimal(required as u64, &mut buf);
    append_str(&mut buf, "（要求次版本 >= ");
    push_decimal(required as u64, &mut buf);
    append_str(&mut buf, "）");
    Err(string_of(buf.as_slice()))
}

} // verus!
