//! The compact port-list format: `"80"`, `"8080:80"`, or a comma-separated
//! list of such mappings.
use vstd::prelude::*;
use crate::text::{chars_of, is_blank, is_space, trim_end, trim_start, lemma_split_without_sep, split, split_chars, string_of, trim, trim_chars, views};

verus! {

/// A published port and the container port that it forwards to.
#[derive(Clone, Copy, Debug, PartialEq, Eq, Structural)]
pub struct PortMapping {
    pub external: u16,
    pub internal: u16,
}

/// Why one mapping token was refused.
#[derive(Clone, Copy, Debug, PartialEq, Eq, Structural)]
pub enum PortError {
    /// The token is empty once trimmed.
    Empty,
    /// The token holds more than one `:`.
    BadFormat,
    /// A port is not a decimal number that fits in 16 bits.
    InvalidNumber,
    /// A port is zero.
    OutOfRange,
}

/// The first refused token of a list: its position, its text and the reason.
#[derive(Clone, Debug)]
pub struct PortListError {
    pub index: usize,
    pub token: String,
    pub cause: PortError,
}

pub open spec fn is_digit(c: char) -> bool {
    '0' <= c && c <= '9'
}

/// The value of a run of decimal digits.
pub open spec fn digits_value(s: Seq<char>) -> int
    decreases s.len(),
{
    if s.len() == 0 {
        0
    } else {
        digits_value(s.drop_last()) * 10 + (s.last() as int - '0' as int)
    }
}

pub open spec fn all_digits(s: Seq<char>) -> bool {
    forall|i: int| 0 <= i < s.len() ==> is_digit(#[trigger] s[i])
}

/// The digits of an unsigned number in text: one leading `+` is allowed.
pub open spec fn unsigned_digits(s: Seq<char>) -> Seq<char> {
    if s.len() > 0 && s[0] == '+' {
        s.drop_first()
    } else {
        s
    }
}

/// The 16-bit unsigned number that `s` spells in decimal, if any.
pub open spec fn parse_u16(s: Seq<char>) -> Option<u16> {
    let d = unsigned_digits(s);
    if d.len() > 0 && all_digits(d) && digits_value(d) <= 65535 {
        Some(digits_value(d) as u16)
    } else {
        None
    }
}

/// A port in text, trimmed: a number from 1 to 65535.
pub open spec fn port_of(s: Seq<char>) -> Result<u16, PortError> {
    match parse_u16(trim(s)) {
        None => Err(PortError::InvalidNumber),
        Some(p) => if p == 0 {
            Err(PortError::OutOfRange)
        } else {
            Ok(p)
        },
    }
}

/// One mapping token: `N` maps `N` to itself, `E:I` maps `E` to `I`.
pub open spec fn mapping_of(s: Seq<char>) -> Result<PortMapping, PortError> {
    let t = trim(s);
    if t.len() == 0 {
        Err(PortError::Empty)
    } else if t.contains(':') {
        let parts = split(t, ':');
        if parts.len() != 2 {
            Err(PortError::BadFormat)
        } else {
            match port_of(parts[0]) {
                Err(e) => Err(e),
                Ok(external) => match port_of(parts[1]) {
                    Err(e) => Err(e),
                    Ok(internal) => Ok(PortMapping { external, internal }),
                },
            }
        }
    } else {
        match port_of(t) {
            Err(e) => Err(e),
            Ok(p) => Ok(PortMapping { external: p, internal: p }),
        }
    }
}

/// The mappings of a sequence of tokens, or the position and reason of the first refused one.
pub open spec fn mappings_of_tokens(ts: Seq<Seq<char>>) -> Result<Seq<PortMapping>, (int, PortError)>
    decreases ts.len(),
{
    if ts.len() == 0 {
        Ok(Seq::empty())
    } else {
        match mappings_of_tokens(ts.drop_last()) {
            Err(e) => Err(e),
            Ok(ms) => match mapping_of(ts.last()) {
                Ok(m) => Ok(ms.push(m)),
                Err(e) => Err(((ts.len() - 1) as int, e)),
            },
        }
    }
}

/// A comma-separated list of mappings; the empty text is the empty list.
pub open spec fn mappings_of(s: Seq<char>) -> Result<Seq<PortMapping>, (int, PortError)> {
    if s.len() == 0 {
        Ok(Seq::empty())
    } else {
        mappings_of_tokens(split(s, ','))
    }
}

proof fn lemma_digits_grow(s: Seq<char>, k: int)
    requires
        0 <= k <= s.len(),
        all_digits(s),
    ensures
        digits_value(s.subrange(0, k)) <= digits_value(s),
        0 <= digits_value(s.subrange(0, k)),
    decreases s.len() - k,
{
    if k < s.len() {
        lemma_digits_grow(s, k + 1);
        assert(s.subrange(0, k + 1).drop_last() =~= s.subrange(0, k));
        let p = s.subrange(0, k + 1);
        assert(is_digit(s[k]));
        assert(p.last() == s[k]);
        lemma_digits_nonneg(s.subrange(0, k));
    } else {
        assert(s.subrange(0, k) =~= s);
        lemma_digits_nonneg(s);
    }
}

proof fn lemma_digits_nonneg(s: Seq<char>)
    requires
        all_digits(s),
    ensures
        0 <= digits_value(s),
    decreases s.len(),
{
    if s.len() > 0 {
        assert(all_digits(s.drop_last())) by {
            assert forall|i: int| 0 <= i < s.drop_last().len() implies is_digit(
                #[trigger] s.drop_last()[i],
            ) by {
                assert(s.drop_last()[i] == s[i]);
            }
        }
        lemma_digits_nonneg(s.drop_last());
        assert(is_digit(s[s.len() - 1]));
    }
}

fn parse_u16_chars(v: &Vec<char>) -> (r: Option<u16>)
    ensures
        r == parse_u16(v@),
{
    let n = v.len();
    let mut i: usize = 0;
    if n > 0 && v[0] == '+' {
        i = 1;
    }
    let ghost d = unsigned_digits(v@);
    assert(d =~= v@.subrange(i as int, n as int));
    if i == n {
        return None;
    }
    let start = i;
    let mut value: u32 = 0;
    while i < n
        invariant
            start <= i <= n == v.len(),
            d == v@.subrange(start as int, n as int),
            d == unsigned_digits(v@),
            d == v@.subrange(start as int, n as int),
            value <= 65535,
            all_digits(v@.subrange(start as int, i as int)),
            value == digits_value(v@.subrange(start as int, i as int)),
        decreases n - i,
    {
        let c = v[i];
        if !('0' <= c && c <= '9') {
            assert(d[i - start] == c);
            return None;
        }
        let ghost prev = v@.subrange(start as int, i as int);
        let ghost next = v@.subrange(start as int, i + 1);
        assert(next.drop_last() =~= prev);
        assert(next.last() == c);
        assert(all_digits(next)) by {
            assert forall|k: int| 0 <= k < next.len() implies is_digit(#[trigger] next[k]) by {
                if k < prev.len() {
                    assert(next[k] == prev[k]);
                }
            }
        }
        let digit = (c as u32) - ('0' as u32);
        value = value * 10 + digit;
        i = i + 1;
        if value > 65535 {
            proof {
                let whole = v@.subrange(start as int, n as int);
                let k = (i - start) as int;
                assert(whole.subrange(0, k) =~= next);
                let j = first_non_digit(whole);
                if j < whole.len() {
                    assert(!is_digit(whole[j]));
                } else {
                    lemma_digits_grow(whole, k);
                }
            }
            return None;
        }
    }
    assert(v@.subrange(start as int, n as int) == d);
    Some(value as u16)
}

/// The position of the first character of `s` that is no digit, or its length.
spec fn first_non_digit(s: Seq<char>) -> int {
    if exists|i: int| 0 <= i < s.len() && !is_digit(#[trigger] s[i]) {
        choose|i: int| 0 <= i < s.len() && !is_digit(#[trigger] s[i])
    } else {
        s.len() as int
    }
}

/// A port number in its trimmed text.
fn port_of_chars(v: &Vec<char>) -> (r: Result<u16, PortError>)
    ensures
        r == port_of(v@),
{
    let t = trim_chars(v);
    match parse_u16_chars(&t) {
        None => Err(PortError::InvalidNumber),
        Some(p) => if p == 0 {
            Err(PortError::OutOfRange)
        } else {
            Ok(p)
        },
    }
}

fn contains_char(v: &Vec<char>, c: char) -> (r: bool)
    ensures
        r == v@.contains(c),
{
    let mut i: usize = 0;
    while i < v.len()
        invariant
            i <= v.len(),
            forall|k: int| 0 <= k < i ==> v@[k] != c,
        decreases v.len() - i,
    {
        if v[i] == c {
            return true;
        }
        i = i + 1;
    }
    false
}

fn mapping_of_chars(v: &Vec<char>) -> (r: Result<PortMapping, PortError>)
    ensures
        r == mapping_of(v@),
{
    let t = trim_chars(v);
    if t.len() == 0 {
        return Err(PortError::Empty);
    }
    if contains_char(&t, ':') {
        let parts = split_chars(&t, ':');
        if parts.len() != 2 {
            return Err(PortError::BadFormat);
        }
        assert(parts@[0]@ == views(parts@)[0] && parts@[1]@ == views(parts@)[1]);
        let external = match port_of_chars(&parts[0]) {
            Err(e) => return Err(e),
            Ok(p) => p,
        };
        let internal = match port_of_chars(&parts[1]) {
            Err(e) => return Err(e),
            Ok(p) => p,
        };
        Ok(PortMapping { external, internal })
    } else {
        match port_of_chars(&t) {
            Err(e) => Err(e),
            Ok(p) => Ok(PortMapping { external: p, internal: p }),
        }
    }
}

proof fn lemma_first_error_stays(ts: Seq<Seq<char>>, k: int)
    requires
        0 <= k <= ts.len(),
        mappings_of_tokens(ts.subrange(0, k)) is Err,
    ensures
        mappings_of_tokens(ts) == mappings_of_tokens(ts.subrange(0, k)),
    decreases ts.len() - k,
{
    if k < ts.len() {
        assert(ts.subrange(0, k + 1).drop_last() =~= ts.subrange(0, k));
        lemma_first_error_stays(ts, k + 1);
    } else {
        assert(ts.subrange(0, k) =~= ts);
    }
}

/// The decimal text of `n`, without sign or leading zeros.
pub open spec fn decimal(n: nat) -> Seq<char>
    decreases n,
{
    if n < 10 {
        seq![(n + '0' as nat) as char]
    } else {
        decimal(n / 10).push(((n % 10) + '0' as nat) as char)
    }
}

pub proof fn lemma_decimal(n: nat)
    ensures
        decimal(n).len() > 0,
        all_digits(decimal(n)),
        digits_value(decimal(n)) == n,
    decreases n,
{
    let d = decimal(n);
    if n < 10 {
        assert(d.drop_last() =~= Seq::<char>::empty());
        assert(d.last() as int == n + '0' as int);
        assert(digits_value(d.drop_last()) == 0);
    } else {
        assert(d.last() as int == n % 10 + '0' as int);
        lemma_decimal(n / 10);
        assert(d.drop_last() =~= decimal(n / 10));
        assert(n == (n / 10) * 10 + n % 10);
        assert forall|i: int| 0 <= i < d.len() implies is_digit(#[trigger] d[i]) by {
            if i < d.len() - 1 {
                assert(d[i] == decimal(n / 10)[i]);
            }
        }
    }
}

proof fn lemma_no_space_trim(s: Seq<char>)
    requires
        forall|i: int| 0 <= i < s.len() ==> !is_space(#[trigger] s[i]),
    ensures
        trim(s) == s,
{
    if s.len() > 0 {
        assert(!is_space(s[0]));
        assert(!is_space(s[s.len() - 1]));
    }
}

proof fn lemma_split_pair(a: Seq<char>, b: Seq<char>, sep: char)
    requires
        !a.contains(sep),
        !b.contains(sep),
    ensures
        split(a + seq![sep] + b, sep) == seq![a, b],
    decreases b.len(),
{
    if b.len() == 0 {
        lemma_split_without_sep(a, sep);
        let s = a + seq![sep];
        assert((a + seq![sep] + b) =~= s);
        assert(s.drop_last() =~= a);
        assert(b =~= Seq::<char>::empty());
        assert(split(s, sep) =~= seq![a, b]);
    } else {
        let b0 = b.drop_last();
        assert(!b0.contains(sep)) by {
            if b0.contains(sep) {
                let k = choose|k: int| 0 <= k < b0.len() && b0[k] == sep;
                assert(b[k] == sep);
            }
        }
        lemma_split_pair(a, b0, sep);
        let s = a + seq![sep] + b;
        assert(s.drop_last() =~= a + seq![sep] + b0);
        assert(s.last() == b[b.len() - 1]);
        assert(b0.push(b.last()) =~= b);
        assert(split(s, sep) =~= seq![a, b]);
    }
}

proof fn lemma_decimal_plain(n: nat)
    ensures
        forall|i: int| 0 <= i < decimal(n).len() ==> !is_space(#[trigger] decimal(n)[i]),
        !decimal(n).contains(':'),
        decimal(n)[0] != '+',
        trim(decimal(n)) == decimal(n),
{
    lemma_decimal(n);
    let d = decimal(n);
    assert forall|i: int| 0 <= i < d.len() implies !is_space(#[trigger] d[i]) by {
        assert(is_digit(d[i]));
    }
    assert(!d.contains(':')) by {
        if d.contains(':') {
            let k = choose|k: int| 0 <= k < d.len() && d[k] == ':';
            assert(is_digit(d[k]));
        }
    }
    assert(is_digit(d[0]));
    lemma_no_space_trim(d);
}

/// The decimal text of a port from 1 to 65535 reads back as that port.
pub proof fn lemma_port_text(n: u16)
    requires
        1 <= n,
    ensures
        port_of(decimal(n as nat)) == Ok::<u16, PortError>(n),
{
    lemma_decimal_plain(n as nat);
    lemma_decimal(n as nat);
}

/// A token that is one port number `N` maps `N` to itself.
pub proof fn lemma_single_port_maps_to_itself(n: u16)
    requires
        1 <= n,
    ensures
        mapping_of(decimal(n as nat)) == Ok::<PortMapping, PortError>(PortMapping { external: n, internal: n }),
{
    lemma_decimal_plain(n as nat);
    lemma_port_text(n);
}

/// A token `E:I`, with neither side holding white space or `:`, is accepted exactly when
/// both sides are ports from 1 to 65535, and then maps `E` to `I`.
pub proof fn lemma_pair_text(a: Seq<char>, b: Seq<char>)
    requires
        !a.contains(':'),
        !b.contains(':'),
        forall|i: int| 0 <= i < a.len() ==> !is_space(#[trigger] a[i]),
        forall|i: int| 0 <= i < b.len() ==> !is_space(#[trigger] b[i]),
    ensures
        mapping_of(a + seq![':'] + b) == match (port_of(a), port_of(b)) {
            (Ok(e), Ok(i)) => Ok::<PortMapping, PortError>(PortMapping { external: e, internal: i }),
            (Err(x), _) => Err(x),
            (Ok(_), Err(x)) => Err(x),
        },
{
    let s = a + seq![':'] + b;
    assert forall|i: int| 0 <= i < s.len() implies !is_space(#[trigger] s[i]) by {
        if i < a.len() {
            assert(s[i] == a[i]);
        } else if i > a.len() {
            assert(s[i] == b[i - a.len() - 1]);
        }
    }
    lemma_no_space_trim(s);
    assert(s[a.len() as int] == ':');
    lemma_split_pair(a, b, ':');
}

/// The text `"E:I"` of two ports from 1 to 65535 parses to exactly that pair.
pub proof fn lemma_port_pair_round_trip(e: u16, i: u16)
    requires
        1 <= e,
        1 <= i,
    ensures
        mapping_of(decimal(e as nat) + seq![':'] + decimal(i as nat))
            == Ok::<PortMapping, PortError>(PortMapping { external: e, internal: i }),
{
    lemma_decimal_plain(e as nat);
    lemma_decimal_plain(i as nat);
    lemma_port_text(e);
    lemma_port_text(i);
    lemma_pair_text(decimal(e as nat), decimal(i as nat));
}

/// Every accepted mapping has both ports in 1 to 65535.
pub proof fn lemma_accepted_ports_in_range(s: Seq<char>)
    requires
        mapping_of(s) is Ok,
    ensures
        mapping_of(s)->Ok_0.external >= 1,
        mapping_of(s)->Ok_0.internal >= 1,
{
}

proof fn lemma_trim_start_blank(w: Seq<char>, x: Seq<char>)
    requires
        is_blank(w),
    ensures
        trim_start(w + x) == trim_start(x),
    decreases w.len(),
{
    if w.len() > 0 {
        assert(is_space(w[0]));
        assert((w + x)[0] == w[0]);
        assert((w + x).drop_first() =~= w.drop_first() + x);
        assert(is_blank(w.drop_first())) by {
            assert forall|i: int| 0 <= i < w.drop_first().len() implies is_space(#[trigger] w.drop_first()[i]) by {
                assert(w.drop_first()[i] == w[i + 1]);
            }
        }
        lemma_trim_start_blank(w.drop_first(), x);
    } else {
        assert(w + x =~= x);
    }
}

proof fn lemma_trim_end_blank(x: Seq<char>, w: Seq<char>)
    requires
        is_blank(w),
    ensures
        trim_end(x + w) == trim_end(x),
    decreases w.len(),
{
    if w.len() > 0 {
        assert(is_space(w[w.len() - 1]));
        assert((x + w).last() == w[w.len() - 1]);
        assert((x + w).drop_last() =~= x + w.drop_last());
        assert(is_blank(w.drop_last())) by {
            assert forall|i: int| 0 <= i < w.drop_last().len() implies is_space(#[trigger] w.drop_last()[i]) by {
                assert(w.drop_last()[i] == w[i]);
            }
        }
        lemma_trim_end_blank(x, w.drop_last());
    } else {
        assert(x + w =~= x);
    }
}

proof fn lemma_blank_lacks_colon(w: Seq<char>)
    requires
        is_blank(w),
    ensures
        !w.contains(':'),
{
    if w.contains(':') {
        let i = choose|i: int| 0 <= i < w.len() && w[i] == ':';
        assert(is_space(w[i]));
    }
}

/// The text `"E:I"` of two ports from 1 to 65535, with white space allowed around each port
/// and around the whole, parses to exactly that pair.
pub proof fn lemma_port_pair_with_spaces(
    e: u16,
    i: u16,
    w1: Seq<char>,
    w2: Seq<char>,
    w3: Seq<char>,
    w4: Seq<char>,
)
    requires
        1 <= e,
        1 <= i,
        is_blank(w1),
        is_blank(w2),
        is_blank(w3),
        is_blank(w4),
    ensures
        mapping_of(w1 + decimal(e as nat) + w2 + seq![':'] + w3 + decimal(i as nat) + w4)
            == Ok::<PortMapping, PortError>(PortMapping { external: e, internal: i }),
{
    let de = decimal(e as nat);
    let di = decimal(i as nat);
    lemma_decimal_plain(e as nat);
    lemma_decimal_plain(i as nat);
    lemma_decimal(e as nat);
    lemma_decimal(i as nat);
    lemma_port_text(e);
    lemma_port_text(i);
    let left = de + w2;
    let right = w3 + di;
    let core = left + seq![':'] + right;
    let whole = w1 + de + w2 + seq![':'] + w3 + di + w4;
    assert(whole =~= w1 + (core + w4));
    lemma_trim_start_blank(w1, core + w4);
    assert((core + w4)[0] == de[0]);
    assert(is_digit(de[0]));
    assert(trim_start(core + w4) == core + w4);
    lemma_trim_end_blank(core, w4);
    assert(core.last() == di[di.len() - 1]);
    assert(is_digit(di[di.len() - 1]));
    assert(trim_end(core) == core);
    assert(trim(whole) == core);
    assert(core[left.len() as int] == ':');
    assert(core.contains(':'));
    lemma_blank_lacks_colon(w2);
    lemma_blank_lacks_colon(w3);
    assert(!left.contains(':')) by {
        if left.contains(':') {
            let k = choose|k: int| 0 <= k < left.len() && left[k] == ':';
            if k < de.len() {
                assert(de[k] == ':');
                assert(de.contains(':'));
            } else {
                assert(w2[k - de.len()] == ':');
                assert(w2.contains(':'));
            }
        }
    }
    assert(!right.contains(':')) by {
        if right.contains(':') {
            let k = choose|k: int| 0 <= k < right.len() && right[k] == ':';
            if k < w3.len() {
                assert(w3[k] == ':');
                assert(w3.contains(':'));
            } else {
                assert(di[k - w3.len()] == ':');
                assert(di.contains(':'));
            }
        }
    }
    lemma_split_pair(left, right, ':');
    // each side trims to its digits
    lemma_trim_start_blank(Seq::empty(), left);
    assert(Seq::<char>::empty() + left =~= left);
    assert(left[0] == de[0]);
    lemma_trim_end_blank(de, w2);
    assert(trim(left) == de);
    lemma_trim_start_blank(w3, di);
    assert(trim_start(di) == di);
    assert(trim_end(di) == di);
    assert(trim(right) == di);
}

impl PortMapping {
    pub fn new(external: u16, internal: u16) -> (r: Self)
        ensures
            r.external == external,
            r.internal == internal,
    {
        PortMapping { external, internal }
    }

    /// Parses one mapping token such as `"8080"` or `"8080:80"`.
    pub fn parse_port_mapping(mapping_str: &str) -> (r: Result<PortMapping, PortError>)
        ensures
            r == mapping_of(mapping_str@),
    {
        mapping_of_chars(&chars_of(mapping_str))
    }

    /// Parses one port number, with white space around it allowed.
    pub fn validate_port(port_str: &str) -> (r: Result<u16, PortError>)
        ensures
            r == port_of(port_str@),
    {
        port_of_chars(&chars_of(port_str))
    }

    /// Parses a comma-separated list of mappings; the first refused token fails the whole list.
    pub fn parse_port_mappings(mappings_str: &str) -> (r: Result<Vec<PortMapping>, PortListError>)
        ensures
            match r {
                Ok(v) => mappings_of(mappings_str@) == Ok::<Seq<PortMapping>, (int, PortError)>(v@),
                Err(e) => {
                    &&& mappings_of(mappings_str@) == Err::<Seq<PortMapping>, (int, PortError)>((e.index as int, e.cause))
                    &&& e.token@ == split(mappings_str@, ',')[e.index as int]
                },
            },
    {
        let chars = chars_of(mappings_str);
        if chars.len() == 0 {
            return Ok(Vec::new());
        }
        let tokens = split_chars(&chars, ',');
        let ghost ts = split(chars@, ',');
        assert(ts.subrange(0, 0) =~= Seq::<Seq<char>>::empty());
        let mut mappings: Vec<PortMapping> = Vec::new();
        let mut i: usize = 0;
        while i < tokens.len()
            invariant
                i <= tokens.len() == ts.len(),
                ts == split(chars@, ','),
                chars@ == mappings_str@,
                chars@.len() > 0,
                views(tokens@) == ts,
                mappings_of_tokens(ts.subrange(0, i as int)) == Ok::<Seq<PortMapping>, (int, PortError)>(mappings@),
            decreases tokens.len() - i,
        {
            let ghost upto = ts.subrange(0, i + 1);
            assert(upto.drop_last() =~= ts.subrange(0, i as int));
            assert(upto.last() == views(tokens@)[i as int]);
            match mapping_of_chars(&tokens[i]) {
                Ok(m) => {
                    mappings.push(m);
                },
                Err(cause) => {
                    proof {
                        lemma_first_error_stays(ts, i + 1);
                    }
                    assert(tokens@[i as int]@ == views(tokens@)[i as int]);
                    return Err(PortListError { index: i, token: string_of(&tokens[i]), cause });
                },
            }
            i = i + 1;
        }
        assert(ts.subrange(0, i as int) =~= ts);
        Ok(mappings)
    }
}

} // verus!
