use crate::error::WolError;
use vstd::prelude::*;
use vstd::std_specs::iter::IteratorSpec;

verus! {

/// A hexadecimal digit, in either case.
pub open spec fn is_hex_digit(c: char) -> bool {
    ('0' <= c && c <= '9') || ('a' <= c && c <= 'f') || ('A' <= c && c <= 'F')
}

/// The value of a hexadecimal digit.
pub open spec fn hex_value(c: char) -> nat {
    if '0' <= c && c <= '9' {
        (c as u32 - '0' as u32) as nat
    } else if 'a' <= c && c <= 'f' {
        (c as u32 - 'a' as u32 + 10) as nat
    } else {
        (c as u32 - 'A' as u32 + 10) as nat
    }
}

/// Well-formed MAC address text: six groups of two hex digits, joined by
/// single colons, with nothing before or after (`aa:bb:cc:dd:ee:ff`).
pub open spec fn is_mac_text(s: Seq<char>) -> bool {
    &&& s.len() == 17
    &&& forall|i: int|
        0 <= i < 17 ==> if i % 3 == 2 {
            s[i] == ':'
        } else {
            is_hex_digit(#[trigger] s[i])
        }
}

/// The six bytes that well-formed MAC address text spells.
pub open spec fn mac_octets(s: Seq<char>) -> Seq<u8> {
    Seq::new(6, |j: int| (hex_value(s[3 * j]) * 16 + hex_value(s[3 * j + 1])) as u8)
}

/// The value of a run of hex digits, most significant first.
pub open spec fn hex_number(d: Seq<char>) -> nat
    decreases d.len(),
{
    if d.len() == 0 {
        0
    } else {
        hex_number(d.drop_last()) * 16 + hex_value(d.last())
    }
}

/// The text cut at every colon, as `str::split(':')` cuts it: one more
/// group than there are colons, empty groups included.
pub open spec fn split_colons(s: Seq<char>) -> Seq<Seq<char>>
    decreases s.len(),
{
    if s.len() == 0 {
        seq![Seq::empty()]
    } else {
        let front = split_colons(s.drop_last());
        if s.last() == ':' {
            front.push(Seq::empty())
        } else {
            front.update(front.len() - 1, front.last().push(s.last()))
        }
    }
}

/// The digits of a group: what follows one leading `+`, if there is one.
pub open spec fn group_digits(g: Seq<char>) -> Seq<char> {
    if g.len() > 0 && g[0] == '+' {
        g.drop_first()
    } else {
        g
    }
}

/// A group read as a byte in base 16, as `u8::from_str_radix` reads it:
/// an optional `+`, then one or more hex digits whose value fits a byte.
pub open spec fn parse_octet(g: Seq<char>) -> Option<u8> {
    let d = group_digits(g);
    if d.len() > 0 && (forall|i: int| 0 <= i < d.len() ==> is_hex_digit(#[trigger] d[i]))
        && hex_number(d) <= 255 {
        Some(hex_number(d) as u8)
    } else {
        None
    }
}

/// The bytes of groups that all read as bytes.
pub open spec fn octets_of_groups(gs: Seq<Seq<char>>) -> Seq<u8> {
    gs.map_values(|g: Seq<char>| parse_octet(g)->0)
}

/// The bytes of address text, one per colon-separated group, or `None`
/// when some group is not a byte.
pub open spec fn mac_bytes(s: Seq<char>) -> Option<Seq<u8>> {
    let gs = split_colons(s);
    if forall|i: int| 0 <= i < gs.len() ==> (#[trigger] parse_octet(gs[i])) is Some {
        Some(octets_of_groups(gs))
    } else {
        None
    }
}

proof fn lemma_mac_text_prefix_groups(s: Seq<char>, k: int)
    requires
        is_mac_text(s),
        0 <= k <= 17,
    ensures
        split_colons(s.take(k)).len() == k / 3 + 1,
        forall|j: int|
            0 <= j < k / 3 ==> #[trigger] split_colons(s.take(k))[j] == s.subrange(3 * j, 3 * j + 2),
        split_colons(s.take(k))[k / 3] == s.subrange(3 * (k / 3), k),
    decreases k,
{
    if k > 0 {
        lemma_mac_text_prefix_groups(s, k - 1);
        let t = s.take(k);
        assert(t.drop_last() =~= s.take(k - 1));
        assert(t.last() == s[k - 1]);
        let front = split_colons(s.take(k - 1));
        if (k - 1) % 3 == 2 {
            assert(s[k - 1] == ':');
            assert(split_colons(t) == front.push(Seq::empty()));
            assert(s.subrange(3 * (k / 3), k) =~= Seq::<char>::empty());
        } else {
            assert(is_hex_digit(s[k - 1]));
            assert(s[k - 1] != ':');
            assert(split_colons(t) == front.update(front.len() - 1, front.last().push(s[k - 1])));
            assert(s.subrange(3 * (k / 3), k - 1).push(s[k - 1]) =~= s.subrange(3 * (k / 3), k));
        }
    }
}

proof fn lemma_two_digit_octet(g: Seq<char>)
    requires
        g.len() == 2,
        is_hex_digit(g[0]),
        is_hex_digit(g[1]),
    ensures
        parse_octet(g) == Some((hex_value(g[0]) * 16 + hex_value(g[1])) as u8),
{
    assert(group_digits(g) == g);
    assert(g.drop_last() =~= seq![g[0]]);
    assert(seq![g[0]].drop_last() =~= Seq::<char>::empty());
    assert(hex_number(Seq::<char>::empty()) == 0);
    assert(seq![g[0]].last() == g[0]);
    assert(hex_number(seq![g[0]]) == hex_value(g[0]));
    assert(hex_number(g) == hex_value(g[0]) * 16 + hex_value(g[1]));
}

/// Well-formed address text reads, group by group, as the six bytes it spells.
pub proof fn lemma_mac_text_bytes(s: Seq<char>)
    requires
        is_mac_text(s),
    ensures
        mac_bytes(s) == Some(mac_octets(s)),
{
    lemma_mac_text_prefix_groups(s, 17);
    assert(s.take(17) =~= s);
    let gs = split_colons(s);
    assert forall|j: int| 0 <= j < gs.len() implies #[trigger] parse_octet(gs[j]) == Some(
        mac_octets(s)[j],
    ) by {
        assert(gs[j] =~= s.subrange(3 * j, 3 * j + 2));
        assert(is_hex_digit(s[3 * j]));
        assert(is_hex_digit(s[3 * j + 1]));
        lemma_two_digit_octet(gs[j]);
    }
    assert(octets_of_groups(gs) =~= mac_octets(s));
}

fn hex_digit_value(c: char) -> (r: Option<u32>)
    ensures
        r is Some <==> is_hex_digit(c),
        r matches Some(v) ==> v == hex_value(c) && v < 16,
{
    if '0' <= c && c <= '9' {
        Some(c as u32 - '0' as u32)
    } else if 'a' <= c && c <= 'f' {
        Some(c as u32 - 'a' as u32 + 10)
    } else if 'A' <= c && c <= 'F' {
        Some(c as u32 - 'A' as u32 + 10)
    } else {
        None
    }
}

fn parse_octet_chars(g: &Vec<char>) -> (r: Option<u8>)
    ensures
        r == parse_octet(g@),
{
    let start: usize = if g.len() > 0 && g[0] == '+' {
        1
    } else {
        0
    };
    if start >= g.len() {
        return None;
    }
    let ghost d = group_digits(g@);
    assert(d =~= g@.subrange(start as int, g@.len() as int));
    let mut acc: u32 = 0;
    let mut big = false;
    let mut i: usize = start;
    while i < g.len()
        invariant
            start <= i <= g.len(),
            d == group_digits(g@),
            d == g@.subrange(start as int, g@.len() as int),
            forall|k: int| start <= k < i ==> is_hex_digit(#[trigger] g@[k]),
            !big ==> acc == hex_number(g@.subrange(start as int, i as int)) && acc <= 255,
            big ==> hex_number(g@.subrange(start as int, i as int)) > 255,
        decreases g.len() - i,
    {
        let c = g[i];
        let v = match hex_digit_value(c) {
            Some(v) => v,
            None => {
                assert(d[i - start] == c);
                assert(!(forall|k: int| 0 <= k < d.len() ==> is_hex_digit(#[trigger] d[k])));
                return None;
            },
        };
        assert(g@.subrange(start as int, i + 1).drop_last() =~= g@.subrange(start as int, i as int));
        if !big {
            let n = acc * 16 + v;
            if n > 255 {
                big = true;
            } else {
                acc = n;
            }
        }
        i += 1;
    }
    assert(g@.subrange(start as int, i as int) == d);
    if big {
        None
    } else {
        Some(acc as u8)
    }
}

/// `regex::Error`, the error type of `regex::Regex::new`.
#[verifier::external_type_specification]
#[verifier::external_body]
pub struct ExRegexError(regex::Error);

/// The pattern of well-formed address text, in the syntax of the regex crate.
pub const MAC_PATTERN: &'static str = "^([0-9A-Fa-f]{2}:){5}([0-9A-Fa-f]{2})$";

/// Relies on `regex::Regex::new` and `regex::Regex::is_match`: `Regex::new`
/// fails only on an invalid pattern or one over the size limit, and
/// `MAC_PATTERN` is neither; `is_match` is true exactly when the text, from
/// its first character (`^`) to its last (`$`), is six groups of two
/// characters from `0-9`, `A-F`, `a-f`, joined by single colons.
#[verifier::external_body]
fn match_mac_pattern(pattern: &str, text: &str) -> (r: Result<bool, regex::Error>)
    requires
        pattern == MAC_PATTERN,
    ensures
        r is Ok,
        r matches Ok(b) ==> b == is_mac_text(text@),
{
    match regex::Regex::new(pattern) {
        Ok(re) => Ok(re.is_match(text)),
        Err(e) => Err(e),
    }
}

/// An address, held as the text it was given in.
pub struct Mac(pub String);

impl View for Mac {
    type V = Seq<char>;

    open spec fn view(&self) -> Seq<char> {
        self.0@
    }
}

impl Mac {
    /// An address holding `address` as given; nothing is checked yet.
    pub fn new(address: &str) -> (r: Mac)
        ensures
            r@ == address@,
    {
        Mac(address.to_owned())
    }

    /// Whether the text is a well-formed address.
    pub fn is_valid(&self) -> (r: Result<bool, regex::Error>)
        ensures
            r is Ok,
            r matches Ok(b) ==> b == is_mac_text(self@),
    {
        match_mac_pattern(MAC_PATTERN, self.0.as_str())
    }

    /// The bytes of the address, one per colon-separated group.
    pub fn as_bytes(&self) -> (r: Result<Vec<u8>, WolError>)
        ensures
            match mac_bytes(self@) {
                Some(b) => r is Ok && r->Ok_0@ == b,
                None => r == Err::<Vec<u8>, WolError>(WolError::MacConversionFailed),
            },
    {
        let ghost s = self@;
        let mut it = self.0.as_str().chars();
        let mut out: Vec<u8> = Vec::new();
        let mut cur: Vec<char> = Vec::new();
        let mut ok = true;
        let ghost mut done: Seq<Seq<char>> = Seq::empty();
        let ghost mut k: int = 0;
        loop
            invariant
                0 <= k <= s.len(),
                it.remaining() == s.skip(k),
                split_colons(s.take(k)) == done.push(cur@),
                ok ==> out@ == octets_of_groups(done),
                ok <==> forall|i: int| 0 <= i < done.len() ==> (#[trigger] parse_octet(done[i])) is Some,
            ensures
                k == s.len(),
            decreases s.len() - k,
        {
            let next = it.next();
            match next {
                None => {
                    assert(s.skip(k).len() == 0);
                    break;
                },
                Some(c) => {
                    assert(s.take(k + 1).drop_last() =~= s.take(k));
                    assert(s.take(k + 1).last() == c);
                    if c == ':' {
                        let b = parse_octet_chars(&cur);
                        proof {
                            assert(octets_of_groups(done.push(cur@)) =~= octets_of_groups(done).push(parse_octet(cur@)->0));
                            assert(done.push(cur@)[done.len() as int] == cur@);
                            let prev = done;
                            done = done.push(cur@);
                            assert(forall|i: int| 0 <= i < prev.len() ==> #[trigger] prev[i] == done[i]);
                        }
                        match b {
                            Some(b) => {
                                if ok {
                                    out.push(b);
                                }
                            },
                            None => {
                                ok = false;
                            },
                        }
                        cur = Vec::new();
                        assert(split_colons(s.take(k + 1)) =~= done.push(cur@));
                    } else {
                        cur.push(c);
                        assert(split_colons(s.take(k + 1)) =~= done.push(cur@));
                    }
                    proof {
                        k = k + 1;
                    }
                    assert(it.remaining() =~= s.skip(k));
                },
            }
        }
        assert(s.take(k) =~= s);
        let b = parse_octet_chars(&cur);
        proof {
            let gs = done.push(cur@);
            assert(octets_of_groups(gs) =~= octets_of_groups(done).push(parse_octet(cur@)->0));
            assert(gs[done.len() as int] == cur@);
            assert(forall|i: int| 0 <= i < done.len() ==> #[trigger] done[i] == gs[i]);
        }
        match b {
            Some(b) => {
                if ok {
                    out.push(b);
                    Ok(out)
                } else {
                    Err(WolError::MacConversionFailed)
                }
            },
            None => Err(WolError::MacConversionFailed),
        }
    }
}

} // verus!
