//! Reading datagram text back into messages. A text is parsed by its tag,
//! then written out again and compared with what came in, so that only the
//! exact text of a message is accepted.
use crate::ack::AckKind;
use crate::ice_cream::names;
use crate::protocol::{amount_text, join, padded, trimmed, Message};
use crate::text::{bool_text, chars_of, digit_char, has_prefix, nat_text};
use vstd::arithmetic::div_mod::lemma_mod_breakdown;
use vstd::prelude::*;

verus! {

/// The value of a decimal digit, or -1 for any other character.
pub open spec fn digit_of(c: char) -> int {
    if c == '0' {
        0
    } else if c == '1' {
        1
    } else if c == '2' {
        2
    } else if c == '3' {
        3
    } else if c == '4' {
        4
    } else if c == '5' {
        5
    } else if c == '6' {
        6
    } else if c == '7' {
        7
    } else if c == '8' {
        8
    } else if c == '9' {
        9
    } else {
        -1
    }
}

pub open spec fn all_digits(s: Seq<char>) -> bool {
    forall|i: int| 0 <= i < s.len() ==> digit_of(#[trigger] s[i]) >= 0
}

/// The number a string of decimal digits writes.
pub open spec fn digits_value(s: Seq<char>) -> nat
    decreases s.len(),
{
    if s.len() == 0 {
        0
    } else {
        digits_value(s.drop_last()) * 10 + digit_of(s.last()) as nat
    }
}

pub open spec fn pow10(e: nat) -> nat
    decreases e,
{
    if e == 0 {
        1
    } else {
        10 * pow10((e - 1) as nat)
    }
}

/// A message the decoder can read back from its text: the flavour names
/// of a stock request hold no double quote.
pub open spec fn decodable(m: Message) -> bool {
    m matches Message::UseStock(fl, _) ==> forall|i: int, j: int|
        0 <= i < fl@.len() && 0 <= j < fl@[i]@.len() ==> #[trigger] fl@[i]@[j] != '"'
}

proof fn lemma_digit_char(d: nat)
    requires
        d < 10,
    ensures
        digit_of(digit_char(d)) == d,
{
}

proof fn lemma_nat_text(n: nat)
    ensures
        all_digits(nat_text(n)),
        digits_value(nat_text(n)) == n,
        nat_text(n).len() >= 1,
    decreases n,
{
    if n < 10 {
        lemma_digit_char(n);
        let t = nat_text(n);
        assert(t.drop_last() =~= Seq::<char>::empty());
        assert(t.last() == digit_char(n));
        assert(digits_value(t) == digits_value(t.drop_last()) * 10 + digit_of(t.last()) as nat);
    } else {
        lemma_nat_text(n / 10);
        lemma_digit_char(n % 10);
        let t = nat_text(n);
        assert(t.drop_last() == nat_text(n / 10));
        assert(t.last() == digit_char(n % 10));
        assert(digits_value(t) == digits_value(t.drop_last()) * 10 + digit_of(t.last()) as nat);
        assert(n == (n / 10) * 10 + n % 10);
        assert forall|i: int| 0 <= i < t.len() implies digit_of(#[trigger] t[i]) >= 0 by {
            if i < t.len() - 1 {
                assert(t[i] == nat_text(n / 10)[i]);
            }
        }
    }
}

proof fn lemma_pow10_pos(e: nat)
    ensures
        pow10(e) >= 1,
    decreases e,
{
    if e > 0 {
        lemma_pow10_pos((e - 1) as nat);
    }
}

proof fn lemma_value_bound(s: Seq<char>)
    requires
        all_digits(s),
    ensures
        digits_value(s) < pow10(s.len()),
    decreases s.len(),
{
    if s.len() > 0 {
        let d = s.drop_last();
        assert(all_digits(d)) by {
            assert forall|i: int| 0 <= i < d.len() implies digit_of(#[trigger] d[i]) >= 0 by {
                assert(d[i] == s[i]);
            }
        }
        lemma_value_bound(d);
        assert(digit_of(s[s.len() - 1]) >= 0);
        let v = digits_value(d);
        let p = pow10(d.len());
        assert(v * 10 + digit_of(s.last()) < 10 * p) by (nonlinear_arith)
            requires
                v < p,
                0 <= digit_of(s.last()) < 10,
        ;
    }
}

proof fn lemma_value_prefix(s: Seq<char>, i: int)
    requires
        all_digits(s),
        0 <= i <= s.len(),
    ensures
        digits_value(s.subrange(0, i)) <= digits_value(s),
    decreases s.len() - i,
{
    if i < s.len() {
        lemma_value_prefix(s, i + 1);
        let a = s.subrange(0, i + 1);
        assert(a.drop_last() == s.subrange(0, i));
        assert(digit_of(s[i]) >= 0);
        assert(digits_value(s.subrange(0, i)) <= digits_value(a)) by (nonlinear_arith)
            requires
                digits_value(a) == digits_value(s.subrange(0, i)) * 10 + digit_of(a.last()) as nat,
        ;
    } else {
        assert(s.subrange(0, i) == s);
    }
}

proof fn lemma_padded(f: nat, w: nat)
    ensures
        all_digits(padded(f, w)),
        padded(f, w).len() == w,
        digits_value(padded(f, w)) == f % pow10(w),
    decreases w,
{
    lemma_pow10_pos(w);
    if w > 0 {
        lemma_padded(f / 10, (w - 1) as nat);
        lemma_digit_char(f % 10);
        let t = padded(f, w);
        assert(t.drop_last() == padded(f / 10, (w - 1) as nat));
        assert forall|i: int| 0 <= i < t.len() implies digit_of(#[trigger] t[i]) >= 0 by {
            if i < t.len() - 1 {
                assert(t[i] == padded(f / 10, (w - 1) as nat)[i]);
            }
        }
        lemma_pow10_pos((w - 1) as nat);
        lemma_mod_breakdown(f as int, 10, pow10((w - 1) as nat) as int);
    } else {
        assert(f % 1 == 0);
    }
}

proof fn lemma_trimmed(f: nat, w: nat)
    requires
        f < pow10(w),
    ensures
        trimmed(f, w).1 <= w,
        trimmed(f, w).0 * pow10((w - trimmed(f, w).1) as nat) == f,
        trimmed(f, w).0 < pow10(trimmed(f, w).1),
        f != 0 ==> trimmed(f, w).1 >= 1,
    decreases w,
{
    if w > 0 && f % 10 == 0 {
        assert(f / 10 < pow10((w - 1) as nat));
        lemma_trimmed(f / 10, (w - 1) as nat);
        let (g, v) = trimmed(f, w);
        assert(((w - v) as nat) == ((w - 1 - v) as nat) + 1);
        let p = pow10(((w - 1 - v) as nat));
        assert(pow10((w - v) as nat) == 10 * p);
        assert(g * (10 * p) == 10 * (g * p)) by (nonlinear_arith);
        assert(g * p == f / 10);
        assert(f == 10 * (f / 10));
        assert(trimmed(f, w) == trimmed(f / 10, (w - 1) as nat));
        assert(g * pow10((w - v) as nat) == f);
    } else {
        assert(pow10(0) == 1);
        assert(trimmed(f, w) == (f, w));
        assert(f * pow10(0) == f);
        if w == 0 {
            assert(f == 0);
        }
    }
}

proof fn lemma_join_push(v: Seq<Seq<char>>, x: Seq<char>)
    ensures
        join(v.push(x)) == if v.len() == 0 {
            x
        } else {
            join(v) + seq![','] + x
        },
{
    assert(v.push(x).drop_last() == v);
    if v.len() == 0 {
        assert(v.push(x)[0] == x);
    }
}

proof fn lemma_join_no_quote(v: Seq<Seq<char>>)
    requires
        forall|i: int, j: int| 0 <= i < v.len() && 0 <= j < v[i].len() ==> #[trigger] v[i][j] != '"',
    ensures
        forall|j: int| 0 <= j < join(v).len() ==> #[trigger] join(v)[j] != '"',
    decreases v.len(),
{
    if v.len() > 1 {
        let d = v.drop_last();
        assert forall|i: int, j: int| 0 <= i < d.len() && 0 <= j < d[i].len() implies #[trigger] d[i][j] != '"' by {
            assert(d[i] == v[i]);
        }
        lemma_join_no_quote(d);
        let l = v.last();
        assert forall|j: int| 0 <= j < join(v).len() implies #[trigger] join(v)[j] != '"' by {
            let a = join(d);
            if j < a.len() {
                assert(join(v)[j] == a[j]);
            } else if j > a.len() {
                assert(join(v)[j] == l[j - a.len() - 1]);
                assert(v[v.len() - 1] == l);
            }
        }
    } else if v.len() == 1 {
        assert forall|j: int| 0 <= j < join(v).len() implies #[trigger] join(v)[j] != '"' by {
            assert(v[0][j] != '"');
        }
    }
}

fn digit(c: char) -> (r: Option<u64>)
    ensures
        r matches Some(d) ==> digit_of(c) >= 0 && d == digit_of(c),
        r is None ==> digit_of(c) < 0,
{
    if c == '0' {
        Some(0)
    } else if c == '1' {
        Some(1)
    } else if c == '2' {
        Some(2)
    } else if c == '3' {
        Some(3)
    } else if c == '4' {
        Some(4)
    } else if c == '5' {
        Some(5)
    } else if c == '6' {
        Some(6)
    } else if c == '7' {
        Some(7)
    } else if c == '8' {
        Some(8)
    } else if c == '9' {
        Some(9)
    } else {
        None
    }
}

/// The value of the digits `cs[from..to]`, when they are a non-empty run of
/// digits whose value fits.
fn parse_digits(cs: &Vec<char>, from: usize, to: usize) -> (r: Option<u64>)
    requires
        from <= to <= cs@.len(),
    ensures
        r matches Some(v) ==> v == digits_value(cs@.subrange(from as int, to as int)) && all_digits(
            cs@.subrange(from as int, to as int),
        ),
        from < to && all_digits(cs@.subrange(from as int, to as int)) && digits_value(
            cs@.subrange(from as int, to as int),
        ) <= u64::MAX ==> r is Some,
{
    if from == to {
        return None;
    }
    let ghost whole = cs@.subrange(from as int, to as int);
    let mut acc: u64 = 0;
    let mut i: usize = from;
    assert(cs@.subrange(from as int, from as int) =~= Seq::<char>::empty());
    while i < to
        invariant
            from <= i <= to <= cs@.len(),
            whole == cs@.subrange(from as int, to as int),
            acc == digits_value(cs@.subrange(from as int, i as int)),
            all_digits(cs@.subrange(from as int, i as int)),
        decreases to - i,
    {
        let ghost pre = cs@.subrange(from as int, i as int);
        let ghost next = cs@.subrange(from as int, i + 1);
        assert(next.drop_last() == pre);
        assert(whole.subrange(0, i - from) == pre);
        assert(whole.subrange(0, i + 1 - from) == next);
        match digit(cs[i]) {
            None => {
                assert(whole[i - from] == cs@[i as int]);
                return None;
            },
            Some(d) => {
                if acc > (u64::MAX - d) / 10 {
                    proof {
                        if all_digits(whole) && digits_value(whole) <= u64::MAX {
                            lemma_value_prefix(whole, i + 1 - from);
                            assert(acc * 10 + d > u64::MAX) by (nonlinear_arith)
                                requires
                                    acc > (u64::MAX - d) / 10,
                                    d < 10,
                            ;
                        }
                    }
                    return None;
                }
                assert(acc * 10 + d <= u64::MAX) by (nonlinear_arith)
                    requires
                        acc <= (u64::MAX - d) / 10,
                        d < 10,
                ;
                acc = acc * 10 + d;
                assert forall|k: int| 0 <= k < next.len() implies digit_of(#[trigger] next[k]) >= 0 by {
                    if k < pre.len() {
                        assert(next[k] == pre[k]);
                    }
                }
            },
        }
        i = i + 1;
    }
    assert(cs@.subrange(from as int, i as int) == whole);
    Some(acc)
}

/// The canonical decimal number at `cs[from..to]`.
fn parse_nat(cs: &Vec<char>, from: usize, to: usize) -> (r: Option<u64>)
    requires
        from <= to <= cs@.len(),
    ensures
        forall|n: u64| cs@.subrange(from as int, to as int) == nat_text(n as nat) ==> r == Some(n),
{
    let r = parse_digits(cs, from, to);
    proof {
        assert forall|n: u64| cs@.subrange(from as int, to as int) == nat_text(n as nat) implies r == Some(n) by {
            lemma_nat_text(n as nat);
        }
    }
    r
}

/// A canonical decimal number that fits a `usize`.
fn parse_usize(cs: &Vec<char>, from: usize, to: usize) -> (r: Option<usize>)
    requires
        from <= to <= cs@.len(),
    ensures
        forall|n: usize| cs@.subrange(from as int, to as int) == nat_text(n as nat) ==> r == Some(n),
{
    match parse_nat(cs, from, to) {
        Some(v) => {
            if v <= usize::MAX as u64 {
                Some(v as usize)
            } else {
                None
            }
        },
        None => None,
    }
}

/// The first position in `[from, to)` holding `c`, or `to`.
fn find_char(cs: &Vec<char>, from: usize, to: usize, c: char) -> (r: usize)
    requires
        from <= to <= cs@.len(),
    ensures
        from <= r <= to,
        forall|i: int| from <= i < r ==> cs@[i] != c,
        r < to ==> cs@[r as int] == c,
{
    let mut i = from;
    while i < to
        invariant
            from <= i <= to <= cs@.len(),
            forall|k: int| from <= k < i ==> cs@[k] != c,
        decreases to - i,
    {
        if cs[i] == c {
            return i;
        }
        i = i + 1;
    }
    to
}

/// Whether `cs[from..to]` is `lit`.
fn range_eq(cs: &Vec<char>, from: usize, to: usize, lit: &str) -> (r: bool)
    requires
        from <= to <= cs@.len(),
    ensures
        r == (cs@.subrange(from as int, to as int) == lit@),
{
    let n = lit.unicode_len();
    if to - from != n {
        return false;
    }
    let mut i: usize = 0;
    while i < n
        invariant
            n == lit@.len(),
            to - from == n,
            from <= to <= cs@.len(),
            i <= n,
            forall|k: int| 0 <= k < i ==> cs@[from + k] == lit@[k],
        decreases n - i,
    {
        if cs[from + i] != lit.get_char(i) {
            assert(cs@.subrange(from as int, to as int)[i as int] != lit@[i as int]);
            return false;
        }
        i = i + 1;
    }
    assert(cs@.subrange(from as int, to as int) =~= lit@);
    true
}

/// `true` or `false` at `cs[from..to]`.
fn parse_bool(cs: &Vec<char>, from: usize, to: usize) -> (r: Option<bool>)
    requires
        from <= to <= cs@.len(),
    ensures
        r matches Some(b) ==> cs@.subrange(from as int, to as int) == bool_text(b),
        forall|b: bool| cs@.subrange(from as int, to as int) == bool_text(b) ==> r == Some(b),
{
    proof {
        reveal_strlit("true");
        reveal_strlit("false");
    }
    assert("true"@.len() == 4 && "false"@.len() == 5);
    if range_eq(cs, from, to, "true") {
        Some(true)
    } else if range_eq(cs, from, to, "false") {
        Some(false)
    } else {
        None
    }
}

/// An acknowledgement kind's name at `cs[from..to]`.
fn parse_kind(cs: &Vec<char>, from: usize, to: usize) -> (r: Option<AckKind>)
    requires
        from <= to <= cs@.len(),
    ensures
        forall|k: AckKind| cs@.subrange(from as int, to as int) == k.name_spec() ==> (r matches Some(k2)
            && k2.name_spec() == k.name_spec()),
{
    let kinds = [
        AckKind::Announce,
        AckKind::Availability,
        AckKind::Hello,
        AckKind::Leader,
        AckKind::UseStock,
        AckKind::StockResult,
        AckKind::Work,
        AckKind::Order,
        AckKind::ResultInterface,
        AckKind::Resilience,
    ];
    let mut i: usize = 0;
    while i < 10
        invariant
            i <= 10,
            kinds@ == seq![
                AckKind::Announce,
                AckKind::Availability,
                AckKind::Hello,
                AckKind::Leader,
                AckKind::UseStock,
                AckKind::StockResult,
                AckKind::Work,
                AckKind::Order,
                AckKind::ResultInterface,
                AckKind::Resilience,
            ],
            from <= to <= cs@.len(),
            forall|k: int| 0 <= k < i ==> cs@.subrange(from as int, to as int) != (#[trigger] kinds@[k]).name_spec(),
        decreases 10 - i,
    {
        let k = kinds[i];
        if range_eq(cs, from, to, k.name()) {
            return Some(k);
        }
        i = i + 1;
    }
    proof {
        assert forall|k: AckKind| cs@.subrange(from as int, to as int) != k.name_spec() by {
            match k {
                AckKind::Announce => assert(kinds@[0] == k),
                AckKind::Availability => assert(kinds@[1] == k),
                AckKind::Hello => assert(kinds@[2] == k),
                AckKind::Leader => assert(kinds@[3] == k),
                AckKind::UseStock => assert(kinds@[4] == k),
                AckKind::StockResult => assert(kinds@[5] == k),
                AckKind::Work => assert(kinds@[6] == k),
                AckKind::Order => assert(kinds@[7] == k),
                AckKind::ResultInterface => assert(kinds@[8] == k),
                AckKind::Resilience => assert(kinds@[9] == k),
            }
        }
    }
    None
}

fn pow10_exec(e: u64) -> (r: u64)
    requires
        e <= 6,
    ensures
        r == pow10(e as nat),
{
    let mut r: u64 = 1;
    let mut i: u64 = 0;
    while i < e
        invariant
            i <= e <= 6,
            r == pow10(i as nat),
            r <= 1_000_000,
        decreases e - i,
    {
        assert(pow10((i + 1) as nat) == 10 * pow10(i as nat));
        proof {
            lemma_pow10_mono(i as nat);
        }
        r = r * 10;
        i = i + 1;
    }
    r
}

proof fn lemma_pow10_mono(i: nat)
    requires
        i < 6,
    ensures
        pow10(i) <= 100_000,
{
    lemma_pow10_values();
}

proof fn lemma_pow10_values()
    ensures
        pow10(0) == 1,
        pow10(1) == 10,
        pow10(2) == 100,
        pow10(3) == 1000,
        pow10(4) == 10_000,
        pow10(5) == 100_000,
        pow10(6) == 1_000_000,
{
    assert(pow10(0) == 1);
    assert(pow10(1) == 10);
    assert(pow10(2) == 100);
    assert(pow10(3) == 1000);
    assert(pow10(4) == 10_000);
    assert(pow10(5) == 100_000);
    assert(pow10(6) == 1_000_000);
}

/// Where the parts of `amount_text(a)` stand, when `cs[from..to]` is that
/// text and `p` is the first `.` in it (or `to`).
proof fn lemma_amount_locate(cs: Seq<char>, from: int, to: int, p: int, a: nat)
    requires
        0 <= from <= p <= to <= cs.len(),
        cs.subrange(from, to) == amount_text(a),
        forall|i: int| from <= i < p ==> cs[i] != '.',
        p < to ==> cs[p] == '.',
    ensures
        ({
            let w = a / 1_000_000;
            let fr = a % 1_000_000;
            let wt = nat_text(w);
            let (g, v) = trimmed(fr, 6);
            &&& all_digits(wt) && digits_value(wt) == w && wt.len() >= 1
            &&& cs.subrange(from, p) == wt
            &&& fr == 0 ==> p == to
            &&& fr != 0 ==> {
                &&& p < to
                &&& cs.subrange(p + 1, to) == padded(g, v)
                &&& 1 <= v <= 6
                &&& g * pow10((6 - v) as nat) == fr
                &&& g < pow10(v)
                &&& all_digits(padded(g, v)) && digits_value(padded(g, v)) == g
                &&& padded(g, v).len() == v
            }
        }),
{
    let w = a / 1_000_000;
    let fr = a % 1_000_000;
    let wt = nat_text(w);
    lemma_nat_text(w);
    let sub = cs.subrange(from, to);
    lemma_pow10_values();
    assert(fr < pow10(6));
    lemma_trimmed(fr, 6);
    let (g, v) = trimmed(fr, 6);
    assert(forall|i: int| 0 <= i < wt.len() ==> #[trigger] wt[i] != '.') by {
        assert forall|i: int| 0 <= i < wt.len() implies #[trigger] wt[i] != '.' by {
            assert(digit_of(wt[i]) >= 0);
        }
    }
    if fr == 0 {
        assert(sub == wt);
        if p < to {
            assert(sub[p - from] == cs[p]);
        }
        assert(cs.subrange(from, p) =~= wt);
    } else {
        assert(sub == wt + seq!['.'] + padded(g, v));
        assert(sub[wt.len() as int] == '.');
        assert(cs[from + wt.len()] == '.');
        if p < from + wt.len() {
            assert(sub[p - from] == cs[p]);
            assert(sub[p - from] == wt[p - from]);
        }
        assert(p == from + wt.len());
        assert(cs.subrange(from, p) =~= wt);
        lemma_padded(g, v);
        let pd = padded(g, v);
        assert(sub.len() == wt.len() + 1 + pd.len());
        assert forall|i: int| 0 <= i < pd.len() implies #[trigger] cs.subrange(p + 1, to)[i] == pd[i] by {
            assert(cs.subrange(p + 1, to)[i] == cs[p + 1 + i]);
            assert(sub[wt.len() + 1 + i] == pd[i]);
            assert(sub[wt.len() + 1 + i] == cs[from + wt.len() + 1 + i]);
        }
        assert(cs.subrange(p + 1, to) =~= padded(g, v));
        vstd::arithmetic::div_mod::lemma_small_mod(g, pow10(v));
    }
}

/// A quantity in kilograms at `cs[from..to]`, written as `amount_text`.
fn parse_amount(cs: &Vec<char>, from: usize, to: usize) -> (r: Option<u64>)
    requires
        from <= to <= cs@.len(),
    ensures
        forall|a: u64| cs@.subrange(from as int, to as int) == amount_text(a as nat) ==> r == Some(a),
{
    let ghost sub = cs@.subrange(from as int, to as int);
    let p = find_char(cs, from, to, '.');
    let w = match parse_digits(cs, from, p) {
        Some(w) => w,
        None => {
            proof {
                assert forall|a: u64| sub != amount_text(a as nat) by {
                    if sub == amount_text(a as nat) {
                        lemma_amount_locate(cs@, from as int, to as int, p as int, a as nat);
                    }
                }
            }
            return None;
        },
    };
    if w > u64::MAX / 1_000_000 {
        proof {
            assert forall|a: u64| sub != amount_text(a as nat) by {
                if sub == amount_text(a as nat) {
                    lemma_amount_locate(cs@, from as int, to as int, p as int, a as nat);
                }
            }
        }
        return None;
    }
    let whole = w * 1_000_000;
    if p == to {
        proof {
            assert forall|a: u64| sub == amount_text(a as nat) implies whole == a by {
                lemma_amount_locate(cs@, from as int, to as int, p as int, a as nat);
            }
        }
        return Some(whole);
    }
    let k = to - p - 1;
    if k == 0 || k > 6 {
        proof {
            assert forall|a: u64| sub != amount_text(a as nat) by {
                if sub == amount_text(a as nat) {
                    lemma_amount_locate(cs@, from as int, to as int, p as int, a as nat);
                }
            }
        }
        return None;
    }
    let f = match parse_digits(cs, p + 1, to) {
        Some(f) => f,
        None => {
            proof {
                assert forall|a: u64| sub != amount_text(a as nat) by {
                    if sub == amount_text(a as nat) {
                        lemma_amount_locate(cs@, from as int, to as int, p as int, a as nat);
                        lemma_pow10_values();
                        assert(pow10(6) == 1_000_000);
                    }
                }
            }
            return None;
        },
    };
    proof {
        lemma_value_bound(cs@.subrange(p + 1, to as int));
        lemma_pow10_values();
    }
    let scale = pow10_exec(6 - k as u64);
    assert(f * scale < 1_000_000) by {
        assert(pow10(k as nat) * pow10((6 - k) as nat) == 1_000_000) by {
            if k == 1 {
            } else if k == 2 {
            } else if k == 3 {
            } else if k == 4 {
            } else if k == 5 {
            } else {
            }
        }
        assert(f < pow10(k as nat));
        let pk = pow10(k as nat);
        assert(f * scale < pk * scale) by (nonlinear_arith)
            requires
                f < pk,
                scale >= 1,
        ;
    }
    let frac = f * scale;
    if whole > u64::MAX - frac {
        proof {
            assert forall|a: u64| sub != amount_text(a as nat) by {
                if sub == amount_text(a as nat) {
                    lemma_amount_locate(cs@, from as int, to as int, p as int, a as nat);
                }
            }
        }
        return None;
    }
    proof {
        assert forall|a: u64| sub == amount_text(a as nat) implies whole + frac == a by {
            lemma_amount_locate(cs@, from as int, to as int, p as int, a as nat);
        }
    }
    Some(whole + frac)
}

proof fn lemma_no_comma_digits(s: Seq<char>)
    requires
        all_digits(s),
    ensures
        forall|i: int| 0 <= i < s.len() ==> #[trigger] s[i] != ',',
{
    assert forall|i: int| 0 <= i < s.len() implies #[trigger] s[i] != ',' by {
        assert(digit_of(s[i]) >= 0);
    }
}

proof fn lemma_no_comma_bool(b: bool)
    ensures
        bool_text(b).len() >= 4,
        forall|i: int| 0 <= i < bool_text(b).len() ==> #[trigger] bool_text(b)[i] != ',',
        forall|i: int| 0 <= i < bool_text(b).len() ==> digit_of(#[trigger] bool_text(b)[i]) < 0,
{
    reveal_strlit("true");
    reveal_strlit("false");
}

/// `<number>,<bool>` from `from` to the end.
fn parse_nat_bool(cs: &Vec<char>, from: usize) -> (r: Option<(usize, bool)>)
    requires
        from <= cs@.len(),
    ensures
        forall|n: usize, b: bool|
            cs@.subrange(from as int, cs@.len() as int) == nat_text(n as nat) + seq![','] + bool_text(b) ==> r
                == Some((n, b)),
{
    let len = cs.len();
    let c = find_char(cs, from, len, ',');
    if c == len {
        proof {
            assert forall|n: usize, b: bool|
                cs@.subrange(from as int, len as int) != nat_text(n as nat) + seq![','] + bool_text(b) by {
                if cs@.subrange(from as int, len as int) == nat_text(n as nat) + seq![','] + bool_text(b) {
                    lemma_nat_text(n as nat);
                    lemma_no_comma_digits(nat_text(n as nat));
                    lemma_first_char(cs@, from as int, c as int, nat_text(n as nat), ',', bool_text(b));
                }
            }
        }
        return None;
    }
    let n = parse_usize(cs, from, c);
    let b = parse_bool(cs, c + 1, len);
    proof {
        assert forall|n2: usize, b2: bool|
            cs@.subrange(from as int, len as int) == nat_text(n2 as nat) + seq![','] + bool_text(b2) implies n == Some(
            n2,
        ) && b == Some(b2) by {
            lemma_nat_text(n2 as nat);
            lemma_no_comma_digits(nat_text(n2 as nat));
            lemma_first_char(cs@, from as int, c as int, nat_text(n2 as nat), ',', bool_text(b2));
        }
    }
    match (n, b) {
        (Some(n), Some(b)) => Some((n, b)),
        _ => None,
    }
}

/// `<bool>,<number>` from `from` to the end.
fn parse_bool_nat(cs: &Vec<char>, from: usize) -> (r: Option<(bool, usize)>)
    requires
        from <= cs@.len(),
    ensures
        forall|n: usize, b: bool|
            cs@.subrange(from as int, cs@.len() as int) == bool_text(b) + seq![','] + nat_text(n as nat) ==> r
                == Some((b, n)),
        forall|n: usize, b: bool|
            cs@.subrange(from as int, cs@.len() as int) == nat_text(n as nat) + seq![','] + bool_text(b) ==> r
                is None,
{
    let len = cs.len();
    let c = find_char(cs, from, len, ',');
    proof {
        assert forall|n2: usize, b2: bool|
            cs@.subrange(from as int, len as int) == nat_text(n2 as nat) + seq![','] + bool_text(b2) implies !(
            c < len && cs@.subrange(from as int, c as int) == bool_text(true) || c < len && cs@.subrange(
                from as int,
                c as int,
            ) == bool_text(false)) by {
            lemma_nat_text(n2 as nat);
            lemma_no_comma_digits(nat_text(n2 as nat));
            lemma_no_comma_bool(true);
            lemma_no_comma_bool(false);
            lemma_first_char(cs@, from as int, c as int, nat_text(n2 as nat), ',', bool_text(b2));
            assert(digit_of(nat_text(n2 as nat)[0]) >= 0);
            assert(digit_of(bool_text(true)[0]) < 0);
            assert(digit_of(bool_text(false)[0]) < 0);
        }
    }
    if c == len {
        proof {
            assert forall|n: usize, b: bool|
                cs@.subrange(from as int, len as int) != bool_text(b) + seq![','] + nat_text(n as nat) by {
                if cs@.subrange(from as int, len as int) == bool_text(b) + seq![','] + nat_text(n as nat) {
                    lemma_no_comma_bool(b);
                    lemma_first_char(cs@, from as int, c as int, bool_text(b), ',', nat_text(n as nat));
                }
            }
        }
        return None;
    }
    let b = parse_bool(cs, from, c);
    let n = parse_usize(cs, c + 1, len);
    proof {
        assert forall|n2: usize, b2: bool|
            cs@.subrange(from as int, len as int) == bool_text(b2) + seq![','] + nat_text(n2 as nat) implies n == Some(
            n2,
        ) && b == Some(b2) by {
            lemma_no_comma_bool(b2);
            lemma_first_char(cs@, from as int, c as int, bool_text(b2), ',', nat_text(n2 as nat));
        }
    }
    match (b, n) {
        (Some(b), Some(n)) => Some((b, n)),
        _ => None,
    }
}

/// The comma-separated parts of `s[from..to]`.
fn split_names(s: &str, cs: &Vec<char>, from: usize, to: usize) -> (r: Vec<String>)
    requires
        s@ == cs@,
        from <= to <= cs@.len(),
    ensures
        join(names(r@)) == cs@.subrange(from as int, to as int),
{
    let mut r: Vec<String> = Vec::new();
    let mut start = from;
    let mut i = from;
    while i < to
        invariant
            s@ == cs@,
            from <= start <= i <= to <= cs@.len(),
            join(names(r@).push(cs@.subrange(start as int, i as int))) == cs@.subrange(from as int, i as int),
        decreases to - i,
    {
        let ghost v = names(r@);
        let ghost cur = cs@.subrange(start as int, i as int);
        if cs[i] == ',' {
            let piece = String::from_str(s.substring_char(start, i));
            r.push(piece);
            assert(names(r@) =~= v.push(cur));
            proof {
                lemma_join_push(v.push(cur), Seq::<char>::empty());
                assert(cs@.subrange(start as int, i as int) == cur);
            }
            start = i + 1;
            assert(cs@.subrange(start as int, i + 1) =~= Seq::<char>::empty());
            assert(cs@.subrange(from as int, i + 1) =~= cs@.subrange(from as int, i as int) + seq![',']);
        } else {
            proof {
                lemma_join_push(v, cur);
                lemma_join_push(v, cur.push(cs@[i as int]));
                assert(cs@.subrange(start as int, i + 1) =~= cur.push(cs@[i as int]));
                assert(cs@.subrange(from as int, i + 1) =~= cs@.subrange(from as int, i as int).push(cs@[i as int]));
            }
        }
        i = i + 1;
    }
    let ghost v = names(r@);
    let last = String::from_str(s.substring_char(start, to));
    r.push(last);
    assert(names(r@) =~= v.push(cs@.subrange(start as int, to as int)));
    r
}

/// The tag a message's text starts with.
pub open spec fn tag(m: Message) -> Seq<char> {
    match m {
        Message::Order(_) => "Order:"@,
        Message::Work(_) => "Work:"@,
        Message::PaymentResult(_, _) => "Payment:"@,
        Message::Payment(_, _) => "Payment:"@,
        Message::Announce(_) => "Announce:"@,
        Message::Hello(_) => "Hello:"@,
        Message::Leader(_) => "Leader:"@,
        Message::Election(_) => "Election:"@,
        Message::Availability => "Availability"@,
        Message::UseStock(_, _) => "UseStock:"@,
        Message::StockResult(_) => "StockResult:"@,
        Message::Robot(_, _) => "Robot:"@,
        Message::Resilience(_, _) => "Resilience:"@,
        Message::Ack(_) => "Ack:"@,
    }
}

/// The text after a message's tag.
pub open spec fn payload(m: Message) -> Seq<char> {
    m.wire().subrange(tag(m).len() as int, m.wire().len() as int)
}

proof fn lemma_tag(m: Message)
    ensures
        has_prefix(m.wire(), tag(m)),
        m.wire() == tag(m) + payload(m),
{
    assert(m.wire().subrange(0, tag(m).len() as int) =~= tag(m));
    assert(m.wire() =~= tag(m) + payload(m));
}

/// No tag starts another message's text.
proof fn lemma_tag_unique(m: Message, t: Seq<char>)
    requires
        t == "Order:"@ || t == "Work:"@ || t == "Payment:"@ || t == "Announce:"@ || t == "Hello:"@ || t
            == "Leader:"@ || t == "Election:"@ || t == "Availability"@ || t == "UseStock:"@ || t
            == "StockResult:"@ || t == "Robot:"@ || t == "Resilience:"@ || t == "Ack:"@,
        has_prefix(m.wire(), t),
    ensures
        tag(m) == t,
        t == "Order:"@ ==> m is Order,
        t == "Work:"@ ==> m is Work,
        t == "Payment:"@ ==> m is PaymentResult || m is Payment,
        t == "Announce:"@ ==> m is Announce,
        t == "Hello:"@ ==> m is Hello,
        t == "Leader:"@ ==> m is Leader,
        t == "Election:"@ ==> m is Election,
        t == "Availability"@ ==> m is Availability,
        t == "UseStock:"@ ==> m is UseStock,
        t == "StockResult:"@ ==> m is StockResult,
        t == "Robot:"@ ==> m is Robot,
        t == "Resilience:"@ ==> m is Resilience,
        t == "Ack:"@ ==> m is Ack,
{
    reveal_strlit("Order:");
    reveal_strlit("Work:");
    reveal_strlit("Payment:");
    reveal_strlit("Announce:");
    reveal_strlit("Hello:");
    reveal_strlit("Leader:");
    reveal_strlit("Election:");
    reveal_strlit("Availability");
    reveal_strlit("UseStock:");
    reveal_strlit("StockResult:");
    reveal_strlit("Robot:");
    reveal_strlit("Resilience:");
    reveal_strlit("Ack:");
    lemma_tag(m);
    let w = m.wire();
    let g = tag(m);
    assert(w.subrange(0, t.len() as int)[0] == w[0]);
    assert(w[0] == g[0]);
    assert(t[0] == w[0]);
    assert(w.subrange(0, t.len() as int)[1] == w[1]);
    assert(w[1] == g[1]);
    assert(t[1] == w[1]);
    assert(g == t);
}

/// Where the first `ch` of `x + ch + y` is, when `x` holds none.
proof fn lemma_first_char(cs: Seq<char>, from: int, c: int, x: Seq<char>, ch: char, y: Seq<char>)
    requires
        0 <= from <= c <= cs.len(),
        cs.subrange(from, cs.len() as int) == x + seq![ch] + y,
        forall|i: int| 0 <= i < x.len() ==> #[trigger] x[i] != ch,
        forall|i: int| from <= i < c ==> cs[i] != ch,
        c < cs.len() ==> cs[c] == ch,
    ensures
        c == from + x.len(),
        cs.subrange(from, c) == x,
        cs.subrange(c + 1, cs.len() as int) == y,
{
    let sub = cs.subrange(from, cs.len() as int);
    assert(sub.len() == x.len() + 1 + y.len());
    assert(sub[x.len() as int] == ch);
    if c > from + x.len() {
        assert(cs[from + x.len()] == sub[x.len() as int]);
    }
    if c < from + x.len() {
        assert(sub[c - from] == cs[c]);
        assert(sub[c - from] == x[c - from]);
    }
    assert(cs.subrange(from, c) =~= x);
    assert forall|i: int| 0 <= i < y.len() implies #[trigger] cs.subrange(c + 1, cs.len() as int)[i] == y[i] by {
        assert(sub[x.len() + 1 + i] == y[i]);
        assert(sub[x.len() + 1 + i] == cs[from + x.len() + 1 + i]);
    }
    assert(cs.subrange(c + 1, cs.len() as int) =~= y);
}

/// Whether `cs` starts with `lit`.
fn prefixed(cs: &Vec<char>, lit: &str) -> (r: bool)
    ensures
        r == has_prefix(cs@, lit@),
{
    let n = lit.unicode_len();
    if n > cs.len() {
        return false;
    }
    range_eq(cs, 0, n, lit)
}

/// The stock request after `UseStock:`.
fn parse_use_stock(s: &str, cs: &Vec<char>) -> (r: Option<Message>)
    requires
        s@ == cs@,
        has_prefix(cs@, "UseStock:"@),
    ensures
        forall|fl: Vec<String>, a: u64|
            decodable(Message::UseStock(fl, a)) && #[trigger] Message::UseStock(fl, a).wire() == cs@ ==> (r matches Some(
                m2,
            ) && m2.wire() == cs@),
{
    proof {
        reveal_strlit("UseStock:");
    }
    let len = cs.len();
    let ghost pre = "UseStock:"@;
    if len <= 9 || cs[9] != '"' {
        proof {
            assert forall|fl: Vec<String>, a: u64|
                decodable(Message::UseStock(fl, a)) implies Message::UseStock(fl, a).wire() != cs@ by {
                let w = Message::UseStock(fl, a).wire();
                if w == cs@ {
                    assert(w[9] == '"');
                }
            }
        }
        return None;
    }
    let q = find_char(cs, 10, len, '"');
    if q >= len - 1 || cs[q + 1] != ';' {
        proof {
            assert forall|fl: Vec<String>, a: u64|
                decodable(Message::UseStock(fl, a)) implies Message::UseStock(fl, a).wire() != cs@ by {
                let w = Message::UseStock(fl, a).wire();
                if w == cs@ {
                    let j = join(names(fl@));
                    assert forall|i: int, k: int|
                        0 <= i < names(fl@).len() && 0 <= k < names(fl@)[i].len() implies #[trigger] names(fl@)[i][k]
                        != '"' by {
                        assert(names(fl@)[i] == fl@[i]@);
                        assert(fl@[i]@[k] != '"');
                    }
                    lemma_join_no_quote(names(fl@));
                    assert(cs@.subrange(10, len as int) =~= j + seq!['"'] + (seq![';'] + amount_text(a as nat)));
                    lemma_first_char(cs@, 10, q as int, j, '"', seq![';'] + amount_text(a as nat));
                    assert(cs@.subrange(q + 1, len as int)[0] == cs@[q + 1]);
                }
            }
        }
        return None;
    }
    let amount = parse_amount(cs, q + 2, len);
    let fl2 = split_names(s, cs, 10, q);
    proof {
        assert forall|fl: Vec<String>, a: u64|
            decodable(Message::UseStock(fl, a)) && Message::UseStock(fl, a).wire() == cs@ implies amount == Some(
            a,
        ) && join(names(fl2@)) == join(names(fl@)) by {
            let j = join(names(fl@));
            assert forall|i: int, k: int|
                0 <= i < names(fl@).len() && 0 <= k < names(fl@)[i].len() implies #[trigger] names(fl@)[i][k]
                != '"' by {
                assert(names(fl@)[i] == fl@[i]@);
                assert(fl@[i]@[k] != '"');
            }
            lemma_join_no_quote(names(fl@));
            assert(cs@.subrange(10, len as int) =~= j + seq!['"'] + (seq![';'] + amount_text(a as nat)));
            lemma_first_char(cs@, 10, q as int, j, '"', seq![';'] + amount_text(a as nat));
            assert(cs@.subrange(q + 2, len as int) =~= cs@.subrange(q + 1, len as int).subrange(1, len - q - 1));
            assert((seq![';'] + amount_text(a as nat)).subrange(1, len - q - 1) =~= amount_text(a as nat));
        }
    }
    match amount {
        Some(a) => {
            let m = Message::UseStock(fl2, a);
            proof {
                assert forall|fl: Vec<String>, a0: u64|
                    decodable(Message::UseStock(fl, a0)) && #[trigger] Message::UseStock(fl, a0).wire() == cs@ implies m.wire()
                    == cs@ by {
                    assert(m.wire() =~= Message::UseStock(fl, a0).wire());
                }
            }
            Some(m)
        },
        None => None,
    }
}

/// A message from its text, for every text of a decodable message.
fn parse(s: &str, cs: &Vec<char>) -> (r: Option<Message>)
    requires
        s@ == cs@,
    ensures
        forall|m: Message| decodable(m) && m.wire() == cs@ ==> (r matches Some(m2) && m2.wire() == cs@),
{
    proof {
        reveal_strlit("Order:");
        reveal_strlit("Work:");
        reveal_strlit("Payment:");
        reveal_strlit("Announce:");
        reveal_strlit("Hello:");
        reveal_strlit("Leader:");
        reveal_strlit("Election:");
        reveal_strlit("Availability");
        reveal_strlit("UseStock:");
        reveal_strlit("StockResult:");
        reveal_strlit("Robot:");
        reveal_strlit("Resilience:");
        reveal_strlit("Ack:");
    }
    let len = cs.len();
    let ghost c = cs@;
    if range_eq(cs, 0, len, "Availability") {
        assert(c.subrange(0, len as int) == c);
        return Some(Message::Availability);
    }
    if prefixed(cs, "Order:") {
        let m = Message::Order(String::from_str(s.substring_char(6, len)));
        assert(m.wire() =~= c);
        return Some(m);
    }
    if prefixed(cs, "Work:") {
        let m = Message::Work(String::from_str(s.substring_char(5, len)));
        assert(m.wire() =~= c);
        return Some(m);
    }
    if prefixed(cs, "Payment:") {
        let first = parse_bool_nat(cs, 8);
        let second = parse_nat_bool(cs, 8);
        let r = match first {
            Some((b, n)) => Some(Message::PaymentResult(b, n)),
            None => match second {
                Some((n, b)) => Some(Message::Payment(n, b)),
                None => None,
            },
        };
        proof {
            assert forall|m: Message| decodable(m) && m.wire() == c implies (r matches Some(m2) && m2.wire() == c) by {
                lemma_tag_unique(m, "Payment:"@);
                match m {
                    Message::PaymentResult(b, n) => {
                        assert(c.subrange(8, len as int) =~= bool_text(b) + seq![','] + nat_text(n as nat));
                    },
                    Message::Payment(n, b) => {
                        assert(c.subrange(8, len as int) =~= nat_text(n as nat) + seq![','] + bool_text(b));
                    },
                    _ => {},
                }
            }
        }
        return r;
    }
    if prefixed(cs, "Announce:") {
        let r = match parse_usize(cs, 9, len) {
            Some(n) => Some(Message::Announce(n)),
            None => None,
        };
        proof {
            assert forall|m: Message| decodable(m) && m.wire() == c implies (r matches Some(m2) && m2.wire() == c) by {
                lemma_tag_unique(m, "Announce:"@);
                if let Message::Announce(n) = m {
                    assert(c.subrange(9, len as int) =~= nat_text(n as nat));
                }
            }
        }
        return r;
    }
    if prefixed(cs, "Hello:") {
        let r = match parse_usize(cs, 6, len) {
            Some(n) => Some(Message::Hello(n)),
            None => None,
        };
        proof {
            assert forall|m: Message| decodable(m) && m.wire() == c implies (r matches Some(m2) && m2.wire() == c) by {
                lemma_tag_unique(m, "Hello:"@);
                if let Message::Hello(n) = m {
                    assert(c.subrange(6, len as int) =~= nat_text(n as nat));
                }
            }
        }
        return r;
    }
    if prefixed(cs, "Leader:") {
        let r = match parse_usize(cs, 7, len) {
            Some(n) => Some(Message::Leader(n)),
            None => None,
        };
        proof {
            assert forall|m: Message| decodable(m) && m.wire() == c implies (r matches Some(m2) && m2.wire() == c) by {
                lemma_tag_unique(m, "Leader:"@);
                if let Message::Leader(n) = m {
                    assert(c.subrange(7, len as int) =~= nat_text(n as nat));
                }
            }
        }
        return r;
    }
    if prefixed(cs, "Election:") {
        let r = match parse_usize(cs, 9, len) {
            Some(n) => Some(Message::Election(n)),
            None => None,
        };
        proof {
            assert forall|m: Message| decodable(m) && m.wire() == c implies (r matches Some(m2) && m2.wire() == c) by {
                lemma_tag_unique(m, "Election:"@);
                if let Message::Election(n) = m {
                    assert(c.subrange(9, len as int) =~= nat_text(n as nat));
                }
            }
        }
        return r;
    }
    if prefixed(cs, "UseStock:") {
        let r = parse_use_stock(s, cs);
        proof {
            assert forall|m: Message| decodable(m) && m.wire() == c implies (r matches Some(m2) && m2.wire() == c) by {
                lemma_tag_unique(m, "UseStock:"@);
                if let Message::UseStock(fl, a) = m {
                    assert(Message::UseStock(fl, a).wire() == c);
                }
            }
        }
        return r;
    }
    if prefixed(cs, "StockResult:") {
        let r = match parse_bool(cs, 12, len) {
            Some(b) => Some(Message::StockResult(b)),
            None => None,
        };
        proof {
            assert forall|m: Message| decodable(m) && m.wire() == c implies (r matches Some(m2) && m2.wire() == c) by {
                lemma_tag_unique(m, "StockResult:"@);
                if let Message::StockResult(b) = m {
                    assert(c.subrange(12, len as int) =~= bool_text(b));
                }
            }
        }
        return r;
    }
    if prefixed(cs, "Robot:") {
        let r = match parse_nat_bool(cs, 6) {
            Some((n, b)) => Some(Message::Robot(n, b)),
            None => None,
        };
        proof {
            assert forall|m: Message| decodable(m) && m.wire() == c implies (r matches Some(m2) && m2.wire() == c) by {
                lemma_tag_unique(m, "Robot:"@);
                if let Message::Robot(n, b) = m {
                    assert(c.subrange(6, len as int) =~= nat_text(n as nat) + seq![','] + bool_text(b));
                }
            }
        }
        return r;
    }
    if prefixed(cs, "Resilience:") {
        let r = match parse_nat_bool(cs, 11) {
            Some((n, b)) => Some(Message::Resilience(n, b)),
            None => None,
        };
        proof {
            assert forall|m: Message| decodable(m) && m.wire() == c implies (r matches Some(m2) && m2.wire() == c) by {
                lemma_tag_unique(m, "Resilience:"@);
                if let Message::Resilience(n, b) = m {
                    assert(c.subrange(11, len as int) =~= nat_text(n as nat) + seq![','] + bool_text(b));
                }
            }
        }
        return r;
    }
    if prefixed(cs, "Ack:") {
        let r = match parse_kind(cs, 4, len) {
            Some(k) => Some(Message::Ack(k)),
            None => None,
        };
        proof {
            assert forall|m: Message| decodable(m) && m.wire() == c implies (r matches Some(m2) && m2.wire() == c) by {
                lemma_tag_unique(m, "Ack:"@);
                if let Message::Ack(k) = m {
                    assert(c.subrange(4, len as int) =~= k.name_spec());
                    if let Some(Message::Ack(k2)) = r {
                        assert(Message::Ack(k2).wire() =~= c);
                    }
                }
            }
        }
        return r;
    }
    proof {
        assert forall|m: Message| decodable(m) implies m.wire() != c by {
            lemma_tag(m);
            if m.wire() == c {
                if let Message::Availability = m {
                    assert(c.subrange(0, len as int) == c);
                }
            }
        }
    }
    None
}

/// The message whose text is `text`: `Some` exactly when `text` is the
/// text of a message (every decodable message's text is read back).
pub fn decode(text: &str) -> (r: Option<Message>)
    ensures
        r matches Some(m) ==> m.wire() == text@,
        r is None ==> forall|m: Message| decodable(m) ==> m.wire() != text@,
{
    let cs = chars_of(text);
    match parse(text, &cs) {
        Some(m) => {
            let t = m.to_text();
            let orig = String::from_str(text);
            if t == orig {
                Some(m)
            } else {
                None
            }
        },
        None => None,
    }
}

} // verus!
