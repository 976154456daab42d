//! Web searches: the address opened for a query.
use vstd::prelude::*;
use vstd::utf8::encode_utf8;
use crate::text::{trim, trim_str, push_all};
use crate::pratt::owned;

verus! {

/// Bytes a URL may carry as they are: ASCII letters and digits, `-`, `_`,
/// `.` and `~`.
pub open spec fn unreserved(b: u8) -> bool {
    (0x61u8 <= b <= 0x7au8) || (0x41u8 <= b <= 0x5au8) || (0x30u8 <= b <= 0x39u8) || b == 0x2du8 || b == 0x5fu8
        || b == 0x2eu8 || b == 0x7eu8
}

/// Upper-case hexadecimal digit.
pub open spec fn hex_digit(n: u8) -> char {
    if n < 10 {
        ((0x30u8 + n) as u8) as char
    } else {
        ((0x41u8 + n - 10) as u8) as char
    }
}

/// Query-string encoding of bytes: unreserved bytes as they are, a space as
/// `+`, every other byte as `%` and two upper-case hex digits.
pub open spec fn url_encoded(bs: Seq<u8>) -> Seq<char>
    decreases bs.len(),
{
    if bs.len() == 0 {
        Seq::empty()
    } else {
        let b = bs[0];
        let head = if unreserved(b) {
            seq![b as char]
        } else if b == 0x20u8 {
            seq!['+']
        } else {
            seq!['%', hex_digit(b / 16), hex_digit(b % 16)]
        };
        head + url_encoded(bs.drop_first())
    }
}

/// The address for a query: the query itself (trimmed) when it is an
/// `http://` or `https://` address, else a DuckDuckGo search for it.
pub open spec fn search_address(query: Seq<char>) -> Seq<char> {
    let q = trim(query);
    if starts_with(q, "http://"@) || starts_with(q, "https://"@) {
        q
    } else {
        "https://duckduckgo.com/?q="@ + url_encoded(encode_utf8(q))
    }
}

pub open spec fn starts_with(s: Seq<char>, prefix: Seq<char>) -> bool {
    prefix.len() <= s.len() && s.take(prefix.len() as int) == prefix
}

fn str_starts_with(s: &str, prefix: &str) -> (r: bool)
    ensures
        r == starts_with(s@, prefix@),
{
    let v = crate::text::chars_of(s);
    let w = crate::text::chars_of(prefix);
    if w.len() > v.len() {
        return false;
    }
    assert(v@.subrange(0, w.len() as int) == v@.take(w.len() as int));
    crate::apps::range_eq(&v, 0, w.len(), prefix)
}

fn hex_char(n: u8) -> (c: char)
    requires
        n < 16,
    ensures
        c == hex_digit(n),
{
    if n < 10 {
        (0x30u8 + n) as char
    } else {
        (0x41u8 + n - 10) as char
    }
}

/// Encodes `s` for a URL query string, byte by byte of its UTF-8 form.
pub fn url_encode(s: &str) -> (r: String)
    ensures
        r@ == url_encoded(encode_utf8(s@)),
{
    let bytes = s.as_bytes();
    let ghost bs = bytes@;
    assert(bs == encode_utf8(s@));
    let mut out = String::new();
    let mut i: usize = 0;
    assert(bs.skip(0) == bs);
    while i < bytes.len()
        invariant
            i <= bytes.len(),
            bs == bytes@,
            out@ + url_encoded(bs.skip(i as int)) == url_encoded(bs),
        decreases bytes.len() - i,
    {
        let b = bytes[i];
        let ghost before = out@;
        proof {
            assert(bs.skip(i as int)[0] == b);
            assert(bs.skip(i as int).drop_first() == bs.skip(i + 1));
        }
        if (0x61u8 <= b && b <= 0x7au8) || (0x41u8 <= b && b <= 0x5au8) || (0x30u8 <= b && b <= 0x39u8) || b
            == 0x2du8 || b == 0x5fu8 || b == 0x2eu8 || b == 0x7eu8 {
            out.push(b as char);
            assert(out@ == before + seq![b as char]);
        } else if b == 0x20u8 {
            out.push('+');
            assert(out@ == before + seq!['+']);
        } else {
            out.push('%');
            out.push(hex_char(b / 16));
            out.push(hex_char(b % 16));
            assert(out@ =~= before + seq!['%', hex_digit(b / 16), hex_digit(b % 16)]);
        }
        i += 1;
    }
    assert(bs.skip(bytes.len() as int) == Seq::<u8>::empty());
    assert(out@ + Seq::<char>::empty() == out@);
    out
}

/// The address to open for a query.
pub fn search_url(query: &str) -> (r: String)
    ensures
        r@ == search_address(query@),
{
    let q = trim_str(query);
    if str_starts_with(q.as_str(), "http://") || str_starts_with(q.as_str(), "https://") {
        return q;
    }
    let mut out = owned("https://duckduckgo.com/?q=");
    let e = url_encode(q.as_str());
    push_all(&mut out, e.as_str());
    out
}

/// Law: an encoded query holds only unreserved characters, `+`, `%` and
/// upper-case hex digits, so it cannot end the query string early.
pub proof fn law_encoded_is_url_safe(bs: Seq<u8>)
    ensures
        forall|i: int|
            0 <= i < url_encoded(bs).len() ==> url_safe(#[trigger] url_encoded(bs)[i]),
    decreases bs.len(),
{
    if bs.len() > 0 {
        law_encoded_is_url_safe(bs.drop_first());
        let b = bs[0];
        let head = if unreserved(b) {
            seq![b as char]
        } else if b == 0x20u8 {
            seq!['+']
        } else {
            seq!['%', hex_digit(b / 16), hex_digit(b % 16)]
        };
        let rest = url_encoded(bs.drop_first());
        assert forall|i: int| 0 <= i < url_encoded(bs).len() implies url_safe(
            #[trigger] url_encoded(bs)[i],
        ) by {
            if i < head.len() {
                assert(url_encoded(bs)[i] == head[i]);
                if unreserved(b) {
                    assert((b as char) as u32 == b as u32);
                }
            } else {
                assert(url_encoded(bs)[i] == rest[i - head.len()]);
            }
        }
    }
}

/// Characters an encoded query is made of.
pub open spec fn url_safe(c: char) -> bool {
    ('a' <= c <= 'z') || ('A' <= c <= 'Z') || ('0' <= c <= '9') || c == '-' || c == '_' || c == '.'
        || c == '~' || c == '+' || c == '%'
}

} // verus!
