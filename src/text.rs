//! Text over characters: comparison, Unicode white space, trimming and
//! splitting, decimal ports, and the decoding and case mapping of std.

use vstd::prelude::*;
use vstd::std_specs::iter::IteratorSpec;
use vstd::string::StringExecFns;

use crate::bytes::split_on;

verus! {

/// Whether two string slices hold the same characters.
pub fn str_eq(a: &str, b: &str) -> (r: bool)
    ensures
        r == (a@ == b@),
{
    let x = char_vec(a);
    let y = char_vec(b);
    if x.len() != y.len() {
        return false;
    }
    let mut i: usize = 0;
    while i < x.len()
        invariant
            x@ == a@,
            y@ == b@,
            x@.len() == y@.len(),
            i <= x@.len(),
            forall|k: int| 0 <= k < i ==> x@[k] == y@[k],
        decreases x.len() - i,
    {
        if x[i] != y[i] {
            return false;
        }
        i = i + 1;
    }
    assert(x@ =~= y@);
    true
}

/// The text that `String::from_utf8_lossy` makes of the bytes `b`.
pub uninterp spec fn lossy_utf8(b: Seq<u8>) -> Seq<char>;

/// Relies on `String::from_utf8_lossy`: the bytes decoded as UTF-8, each
/// invalid sequence replaced by U+FFFD; the result depends on the bytes alone.
#[verifier::external_body]
pub(crate) fn utf8_lossy(b: &[u8]) -> (r: String)
    ensures
        r@ == lossy_utf8(b@),
        (forall|i: int| 0 <= i < b@.len() ==> b@[i] < 128) ==> r@ == b@.map_values(
            |x: u8| x as char,
        ),
{
    String::from_utf8_lossy(b).into_owned()
}

/// The text that `str::to_uppercase` makes of `s`.
pub uninterp spec fn upper_of(s: Seq<char>) -> Seq<char>;

/// Relies on `str::to_uppercase`: each character mapped to its upper case as
/// Unicode defines it; the result depends on the characters alone.
#[verifier::external_body]
pub(crate) fn to_upper(s: &str) -> (r: String)
    ensures
        r@ == upper_of(s@),
{
    s.to_uppercase()
}

/// The characters of `s`, one by one.
pub fn char_vec(s: &str) -> (r: Vec<char>)
    ensures
        r@ == s@,
{
    broadcast use vstd::string::group_string_axioms;

    let mut it = s.chars();
    let mut r: Vec<char> = Vec::new();
    loop
        invariant
            it.obeys_prophetic_iter_laws(),
            r@ + it.remaining() == s@,
        ensures
            r@ == s@,
        decreases s@.len() - r@.len(),
    {
        match it.next() {
            Some(c) => {
                r.push(c);
            },
            None => {
                assert(r@ =~= s@);
                break;
            },
        }
    }
    r
}

/// White space as Unicode's White_Space property defines it (and as
/// `char::is_whitespace`, `str::trim` and `str::split_whitespace` use it).
pub open spec fn is_white(c: char) -> bool {
    let u = c as u32;
    (9 <= u <= 13) || u == 0x20 || u == 0x85 || u == 0xa0 || u == 0x1680 || (0x2000 <= u <= 0x200a)
        || u == 0x2028 || u == 0x2029 || u == 0x202f || u == 0x205f || u == 0x3000
}

/// Whether `c` is white space (see [`is_white`]).
pub fn is_white_char(c: char) -> (r: bool)
    ensures
        r == is_white(c),
{
    let u = c as u32;
    (9 <= u && u <= 13) || u == 0x20 || u == 0x85 || u == 0xa0 || u == 0x1680 || (0x2000 <= u && u
        <= 0x200a) || u == 0x2028 || u == 0x2029 || u == 0x202f || u == 0x205f || u == 0x3000
}

/// `v` without the white space at either end, as `str::trim` leaves it.
pub open spec fn trim_white(v: Seq<char>) -> Seq<char>
    decreases v.len(),
{
    if v.len() > 0 && is_white(v[0]) {
        trim_white(v.drop_first())
    } else if v.len() > 0 && is_white(v.last()) {
        trim_white(v.drop_last())
    } else {
        v
    }
}

/// The bounds of `v[lo..hi]` without the white space at either end.
pub fn trim_range(v: &[char], lo: usize, hi: usize) -> (r: (usize, usize))
    requires
        lo <= hi <= v@.len(),
    ensures
        lo <= r.0 <= r.1 <= hi,
        v@.subrange(r.0 as int, r.1 as int) == trim_white(v@.subrange(lo as int, hi as int)),
{
    let mut a: usize = lo;
    while a < hi && is_white_char(v[a])
        invariant
            lo <= a <= hi <= v@.len(),
            trim_white(v@.subrange(a as int, hi as int)) == trim_white(
                v@.subrange(lo as int, hi as int),
            ),
        decreases hi - a,
    {
        assert(v@.subrange(a as int, hi as int).drop_first() =~= v@.subrange(a + 1, hi as int));
        a = a + 1;
    }
    if a == hi {
        assert(v@.subrange(a as int, hi as int) =~= Seq::<char>::empty());
    }
    let mut z: usize = hi;
    while z > a && is_white_char(v[z - 1])
        invariant
            lo <= a <= z <= hi <= v@.len(),
            a < hi ==> !is_white(v@[a as int]),
            trim_white(v@.subrange(a as int, z as int)) == trim_white(
                v@.subrange(lo as int, hi as int),
            ),
        decreases z - a,
    {
        assert(v@.subrange(a as int, z as int).drop_last() =~= v@.subrange(a as int, z - 1));
        z = z - 1;
    }
    assert(trim_white(v@.subrange(a as int, z as int)) == v@.subrange(a as int, z as int));
    (a, z)
}

/// The pieces that bounds cut out of `v`.
pub open spec fn range_views(v: Seq<char>, rs: Seq<(usize, usize)>) -> Seq<Seq<char>> {
    rs.map_values(|r: (usize, usize)| v.subrange(r.0 as int, r.1 as int))
}

/// The bounds of the pieces of `v[lo..hi]` cut at each `sep` (see
/// [`split_on`]).
pub fn split_ranges(v: &[char], lo: usize, hi: usize, sep: char) -> (r: Vec<(usize, usize)>)
    requires
        lo <= hi <= v@.len(),
    ensures
        range_views(v@, r@) == split_on(v@.subrange(lo as int, hi as int), sep),
        forall|k: int| 0 <= k < r@.len() ==> lo <= #[trigger] r@[k].0 <= r@[k].1 <= hi,
{
    let mut done: Vec<(usize, usize)> = Vec::new();
    let mut start: usize = lo;
    let mut i: usize = lo;
    assert(v@.subrange(lo as int, lo as int) =~= Seq::<char>::empty());
    assert(range_views(v@, done@).push(v@.subrange(start as int, i as int)) =~= split_on(
        v@.subrange(lo as int, i as int),
        sep,
    ));
    while i < hi
        invariant
            lo <= start <= i <= hi <= v@.len(),
            range_views(v@, done@).push(v@.subrange(start as int, i as int)) == split_on(
                v@.subrange(lo as int, i as int),
                sep,
            ),
            forall|k: int| 0 <= k < done@.len() ==> lo <= #[trigger] done@[k].0 <= done@[k].1 <= i,
        decreases hi - i,
    {
        let ghost before = v@.subrange(lo as int, i as int);
        assert(v@.subrange(lo as int, i + 1).drop_last() =~= before);
        proof {
            crate::bytes::lemma_split_on_nonempty(before, sep);
        }
        if v[i] == sep {
            let ghost old_views = range_views(v@, done@);
            let ghost old_start = start;
            done.push((start, i));
            start = i + 1;
            assert(range_views(v@, done@) =~= old_views.push(v@.subrange(old_start as int, i as int)));
            assert(v@.subrange(start as int, i + 1) =~= Seq::<char>::empty());
            assert(range_views(v@, done@).push(v@.subrange(start as int, i + 1)) =~= split_on(
                before,
                sep,
            ).push(Seq::<char>::empty()));
        } else {
            let ghost sp = split_on(before, sep);
            assert(v@.subrange(start as int, i + 1) =~= v@.subrange(start as int, i as int).push(
                v@[i as int],
            ));
            assert(range_views(v@, done@).push(v@.subrange(start as int, i + 1)) =~= sp.update(
                sp.len() - 1,
                sp.last().push(v@[i as int]),
            ));
        }
        i = i + 1;
    }
    let ghost old_views = range_views(v@, done@);
    done.push((start, i));
    assert(range_views(v@, done@) =~= old_views.push(v@.subrange(start as int, i as int)));
    assert(range_views(v@, done@) =~= split_on(v@.subrange(lo as int, hi as int), sep));
    done
}

/// The character of a decimal digit.
pub open spec fn digit_char(d: nat) -> char {
    ((d + 48) as u8) as char
}

/// The decimal digits of `n`, most significant first, without leading zeros.
pub open spec fn decimal(n: nat) -> Seq<char>
    decreases n,
{
    if n < 10 {
        seq![digit_char(n)]
    } else {
        decimal(n / 10).push(digit_char(n % 10))
    }
}

/// A socket address written as text: the host, a colon, the port in decimal.
pub open spec fn host_port(host: Seq<char>, port: u16) -> Seq<char> {
    host + seq![':'] + decimal(port as nat)
}

/// The text of one decimal digit.
fn digit_text(d: u16) -> (r: &'static str)
    requires
        d < 10,
    ensures
        r@ == seq![digit_char(d as nat)],
{
    proof {
        reveal_strlit("0");
        reveal_strlit("1");
        reveal_strlit("2");
        reveal_strlit("3");
        reveal_strlit("4");
        reveal_strlit("5");
        reveal_strlit("6");
        reveal_strlit("7");
        reveal_strlit("8");
        reveal_strlit("9");
    }
    let r = match d {
        0 => "0",
        1 => "1",
        2 => "2",
        3 => "3",
        4 => "4",
        5 => "5",
        6 => "6",
        7 => "7",
        8 => "8",
        _ => "9",
    };
    assert(r@ =~= seq![digit_char(d as nat)]);
    r
}

/// Appends the decimal digits of `n` to `s`.
fn append_decimal(s: &mut String, n: u16)
    ensures
        final(s)@ == old(s)@ + decimal(n as nat),
    decreases n,
{
    if n >= 10 {
        append_decimal(s, n / 10);
    }
    s.append(digit_text(n % 10));
    assert(s@ =~= old(s)@ + decimal(n as nat));
}

/// The address `host:port`, the port in decimal.
pub fn join_host_port(host: &str, port: u16) -> (r: String)
    ensures
        r@ == host_port(host@, port),
{
    let mut r = host.to_owned();
    r.append(":");
    proof {
        reveal_strlit(":");
    }
    append_decimal(&mut r, port);
    assert(r@ =~= host_port(host@, port));
    r
}

} // verus!
