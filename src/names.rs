//! The names under which caches are persisted: `K:` or `V:` followed by the
//! token ids in decimal, joined by `;`.
use vstd::prelude::*;
use vstd::string::*;

verus! {

/// Which of the two stacked tensors of an entry a name refers to.
#[derive(PartialEq, Eq, Structural, Clone, Copy, Debug)]
pub enum TensorKind {
    Key,
    Value,
}

pub open spec fn kind_letter(k: TensorKind) -> char {
    match k {
        TensorKind::Key => 'K',
        TensorKind::Value => 'V',
    }
}

pub open spec fn digit_char(d: nat) -> char {
    if d == 0 { '0' } else if d == 1 { '1' } else if d == 2 { '2' } else if d == 3 { '3' }
    else if d == 4 { '4' } else if d == 5 { '5' } else if d == 6 { '6' } else if d == 7 { '7' }
    else if d == 8 { '8' } else { '9' }
}

pub open spec fn digit_value(c: char) -> Option<nat> {
    if c == '0' { Some(0) } else if c == '1' { Some(1) } else if c == '2' { Some(2) }
    else if c == '3' { Some(3) } else if c == '4' { Some(4) } else if c == '5' { Some(5) }
    else if c == '6' { Some(6) } else if c == '7' { Some(7) } else if c == '8' { Some(8) }
    else if c == '9' { Some(9) } else { None }
}

/// The decimal digits of `n`, without leading zeros.
pub open spec fn decimal(n: nat) -> Seq<char>
    decreases n,
{
    if n < 10 {
        seq![digit_char(n)]
    } else {
        decimal(n / 10).push(digit_char(n % 10))
    }
}

/// The token ids in decimal, joined by `;`.
pub open spec fn join(t: Seq<u32>) -> Seq<char>
    decreases t.len(),
{
    if t.len() == 0 {
        seq![]
    } else if t.len() == 1 {
        decimal(t[0] as nat)
    } else {
        join(t.drop_last()) + seq![';'] + decimal(t.last() as nat)
    }
}

/// The name of one stacked tensor of the entry for `t`.
pub open spec fn tensor_name(k: TensorKind, t: Seq<u32>) -> Seq<char> {
    seq![kind_letter(k), ':'] + join(t)
}

/// The number of leading digits of `s`.
pub open spec fn digit_run(s: Seq<char>) -> nat
    decreases s.len(),
{
    if s.len() > 0 && digit_value(s[0]) is Some {
        1 + digit_run(s.drop_first())
    } else {
        0
    }
}

/// The number that the digits `s` write.
pub open spec fn digits_value(s: Seq<char>) -> nat
    decreases s.len(),
{
    if s.len() == 0 {
        0
    } else {
        digits_value(s.drop_last()) * 10 + match digit_value(s.last()) {
            Some(d) => d,
            None => 0,
        }
    }
}

/// Reads a `;`-separated list of decimal token ids.
pub open spec fn parse_list(s: Seq<char>) -> Option<Seq<u32>>
    decreases s.len(),
{
    let n = digit_run(s);
    if s.len() == 0 {
        Some(seq![])
    } else if n == 0 || n > s.len() || digits_value(s.take(n as int)) > u32::MAX {
        None
    } else if n == s.len() {
        Some(seq![digits_value(s) as u32])
    } else if s[n as int] == ';' {
        match parse_list(s.skip(n as int + 1)) {
            Some(r) => Some(seq![digits_value(s.take(n as int)) as u32] + r),
            None => None,
        }
    } else {
        None
    }
}

proof fn lemma_digit_char(d: nat)
    requires
        d < 10,
    ensures
        digit_value(digit_char(d)) == Some(d),
{
}

/// `decimal(n)` is made of digits and writes `n`.
proof fn lemma_decimal(n: nat)
    ensures
        decimal(n).len() >= 1,
        forall|i: int| 0 <= i < decimal(n).len() ==> #[trigger] digit_value(decimal(n)[i]) is Some,
        digits_value(decimal(n)) == n,
    decreases n,
{
    if n < 10 {
        lemma_digit_char(n);
        let s = decimal(n);
        assert(s.drop_last() =~= Seq::<char>::empty());
        assert(digits_value(Seq::<char>::empty()) == 0);
        assert(s.last() == digit_char(n));
    } else {
        lemma_decimal(n / 10);
        lemma_digit_char(n % 10);
        let s = decimal(n);
        let p = decimal(n / 10);
        assert(s == p.push(digit_char(n % 10)));
        assert(s.drop_last() =~= p);
        assert(s.last() == digit_char(n % 10));
        assert forall|i: int| 0 <= i < s.len() implies #[trigger] digit_value(s[i]) is Some by {
            if i < s.len() - 1 {
                assert(s[i] == p[i]);
            }
        }
        vstd::arithmetic::div_mod::lemma_fundamental_div_mod(n as int, 10);
        assert(digits_value(s) == digits_value(p) * 10 + (n % 10));
    }
}

/// A run of digits followed by a non-digit (or nothing) is exactly that long.
proof fn lemma_digit_run(d: Seq<char>, r: Seq<char>)
    requires
        forall|i: int| 0 <= i < d.len() ==> #[trigger] digit_value(d[i]) is Some,
        r.len() == 0 || digit_value(r[0]) is None,
    ensures
        digit_run(d + r) == d.len(),
    decreases d.len(),
{
    if d.len() > 0 {
        assert((d + r).drop_first() =~= d.drop_first() + r);
        assert((d + r)[0] == d[0]);
        lemma_digit_run(d.drop_first(), r);
    } else {
        assert(d + r =~= r);
    }
}

/// `join` read from the front.
proof fn lemma_join_front(t: Seq<u32>)
    requires
        t.len() >= 2,
    ensures
        join(t) == decimal(t[0] as nat) + seq![';'] + join(t.drop_first()),
    decreases t.len(),
{
    if t.len() == 2 {
        assert(t.drop_last() =~= seq![t[0]]);
        assert(t.drop_first() =~= seq![t[1]]);
        assert(join(t.drop_last()) == decimal(t[0] as nat));
        assert(join(t.drop_first()) == decimal(t[1] as nat));
        assert(join(t) == join(t.drop_last()) + seq![';'] + decimal(t.last() as nat));
    } else {
        let a = t.drop_last();
        let b = t.drop_first();
        lemma_join_front(a);
        assert(a.drop_first() =~= b.drop_last());
        assert(a[0] == t[0]);
        assert(b.last() == t.last());
        assert(join(t) == join(a) + seq![';'] + decimal(t.last() as nat));
        assert(join(b) == join(b.drop_last()) + seq![';'] + decimal(b.last() as nat));
        assert(join(a) == decimal(t[0] as nat) + seq![';'] + join(a.drop_first()));
        assert(join(t) =~= decimal(t[0] as nat) + seq![';'] + join(b));
    }
}

/// Reading the text of a token list gives the list back.
pub proof fn lemma_parse_join(t: Seq<u32>)
    ensures
        parse_list(join(t)) == Some(t),
    decreases t.len(),
{
    if t.len() == 0 {
        assert(t =~= seq![]);
    } else if t.len() == 1 {
        let s = decimal(t[0] as nat);
        lemma_decimal(t[0] as nat);
        lemma_digit_run(s, seq![]);
        assert(s + seq![] =~= s);
        assert(s.take(s.len() as int) =~= s);
        assert(t =~= seq![t[0]]);
    } else {
        lemma_join_front(t);
        let d = decimal(t[0] as nat);
        let j = join(t.drop_first());
        let s = join(t);
        lemma_decimal(t[0] as nat);
        lemma_digit_run(d, seq![';'] + j);
        assert(s =~= d + (seq![';'] + j));
        assert(s.take(d.len() as int) =~= d);
        assert(s[d.len() as int] == ';');
        assert(s.skip(d.len() as int + 1) =~= j);
        lemma_parse_join(t.drop_first());
        assert(seq![t[0]] + t.drop_first() =~= t);
    }
}

/// The text of a token list names it alone.
pub proof fn lemma_join_injective(a: Seq<u32>, b: Seq<u32>)
    requires
        join(a) == join(b),
    ensures
        a == b,
{
    lemma_parse_join(a);
    lemma_parse_join(b);
}

fn digit_char_of(d: u32) -> (r: char)
    requires
        d < 10,
    ensures
        r == digit_char(d as nat),
{
    if d == 0 { '0' } else if d == 1 { '1' } else if d == 2 { '2' } else if d == 3 { '3' }
    else if d == 4 { '4' } else if d == 5 { '5' } else if d == 6 { '6' } else if d == 7 { '7' }
    else if d == 8 { '8' } else { '9' }
}

fn digit_value_of(c: char) -> (r: Option<u32>)
    ensures
        match digit_value(c) {
            Some(d) => r == Some(d as u32),
            None => r is None,
        },
{
    if c == '0' { Some(0) } else if c == '1' { Some(1) } else if c == '2' { Some(2) }
    else if c == '3' { Some(3) } else if c == '4' { Some(4) } else if c == '5' { Some(5) }
    else if c == '6' { Some(6) } else if c == '7' { Some(7) } else if c == '8' { Some(8) }
    else if c == '9' { Some(9) } else { None }
}

/// Appends the decimal digits of `n`.
fn push_decimal(out: &mut Vec<char>, n: u32)
    ensures
        final(out)@ == old(out)@ + decimal(n as nat),
    decreases n,
{
    if n >= 10 {
        push_decimal(out, n / 10);
    }
    out.push(digit_char_of(n % 10));
    proof {
        if n < 10 {
            assert(n % 10 == n);
        }
    }
}

/// The text of a token list: its ids in decimal, joined by `;`.
pub fn token_list_text(t: &[u32]) -> (r: Vec<char>)
    ensures
        r@ == join(t@),
{
    let mut r: Vec<char> = Vec::new();
    let mut i: usize = 0;
    while i < t.len()
        invariant
            i <= t@.len(),
            r@ == join(t@.take(i as int)),
        decreases t@.len() - i,
    {
        if i > 0 {
            r.push(';');
        }
        push_decimal(&mut r, t[i]);
        proof {
            let u = t@.take(i + 1);
            assert(u.drop_last() =~= t@.take(i as int));
            assert(u.last() == t@[i as int]);
            if i == 0 {
                assert(t@.take(0) =~= seq![]);
            }
        }
        i += 1;
    }
    assert(t@.take(t@.len() as int) =~= t@);
    r
}

/// Reads the token list written from position `i` of `s` on.
fn parse_from(s: &Vec<char>, i: usize) -> (r: Option<Vec<u32>>)
    requires
        i <= s@.len(),
    ensures
        match parse_list(s@.skip(i as int)) {
            Some(t) => r matches Some(v) && v@ == t,
            None => r is None,
        },
    decreases s@.len() - i,
{
    if i == s.len() {
        assert(s@.skip(i as int) =~= seq![]);
        return Some(Vec::new());
    }
    let ghost m: int = 0x1_0000_0000;
    let mut j: usize = i;
    let mut v: u64 = 0;
    while j < s.len() && digit_value_of(s[j]).is_some()
        invariant
            i <= j <= s@.len(),
            forall|k: int| i <= k < j ==> #[trigger] digit_value(s@[k]) is Some,
            m == 0x1_0000_0000,
            v <= m,
            v as int == if digits_value(s@.subrange(i as int, j as int)) < m {
                digits_value(s@.subrange(i as int, j as int)) as int
            } else {
                m
            },
        decreases s@.len() - j,
    {
        let d = digit_value_of(s[j]).unwrap();
        proof {
            let u = s@.subrange(i as int, j + 1);
            assert(u.drop_last() =~= s@.subrange(i as int, j as int));
            assert(u.last() == s@[j as int]);
            assert(d < 10);
            assert(digits_value(u) == digits_value(s@.subrange(i as int, j as int)) * 10 + d);
        }
        v = v * 10 + d as u64;
        if v > 0x1_0000_0000 {
            v = 0x1_0000_0000;
        }
        j += 1;
    }
    proof {
        let rest = s@.skip(j as int);
        let run = s@.subrange(i as int, j as int);
        assert(s@.skip(i as int) =~= run + rest);
        lemma_digit_run(run, rest);
        assert(s@.skip(i as int).take((j - i) as int) =~= run);
    }
    if j == i || v > 0xFFFF_FFFF {
        return None;
    }
    if j == s.len() {
        let mut r: Vec<u32> = Vec::new();
        r.push(v as u32);
        assert(s@.skip(i as int) =~= s@.subrange(i as int, j as int));
        return Some(r);
    }
    if s[j] != ';' {
        return None;
    }
    assert(s@.skip(i as int).skip((j - i) as int + 1) =~= s@.skip(j + 1));
    match parse_from(s, j + 1) {
        Some(rest) => {
            let mut r = rest;
            r.insert(0, v as u32);
            Some(r)
        },
        None => None,
    }
}

/// The token list whose text is `s`, if there is one.
pub fn parse_token_list(s: &Vec<char>) -> (r: Option<Vec<u32>>)
    ensures
        r matches Some(v) ==> join(v@) == s@,
        forall|t: Seq<u32>| join(t) == s@ ==> (r matches Some(v) && v@ == t),
{
    assert(s@.skip(0) =~= s@);
    match parse_from(s, 0) {
        Some(v) => {
            let text = token_list_text(v.as_slice());
            if chars_equal(&text, s) {
                proof {
                    assert forall|t: Seq<u32>| join(t) == s@ implies t == v@ by {
                        lemma_join_injective(t, v@);
                    }
                }
                Some(v)
            } else {
                proof {
                    assert forall|t: Seq<u32>| join(t) == s@ implies false by {
                        lemma_parse_join(t);
                    }
                }
                None
            }
        },
        None => {
            proof {
                assert forall|t: Seq<u32>| join(t) == s@ implies false by {
                    lemma_parse_join(t);
                }
            }
            None
        },
    }
}

fn chars_equal(a: &Vec<char>, b: &Vec<char>) -> (r: bool)
    ensures
        r == (a@ == b@),
{
    if a.len() != b.len() {
        return false;
    }
    let mut i: usize = 0;
    while i < a.len()
        invariant
            a@.len() == b@.len(),
            i <= a@.len(),
            forall|k: int| 0 <= k < i ==> a@[k] == b@[k],
        decreases a@.len() - i,
    {
        if a[i] != b[i] {
            return false;
        }
        i += 1;
    }
    assert(a@ =~= b@);
    true
}

/// Relies on `String`'s `FromIterator<char>`: the string of these characters.
#[verifier::external_body]
fn string_from_chars(c: &Vec<char>) -> (r: String)
    ensures
        r@ == c@,
{
    c.iter().collect()
}

/// The characters of a string.
pub fn chars_of(s: &str) -> (r: Vec<char>)
    ensures
        r@ == s@,
{
    let n = s.unicode_len();
    let mut r: Vec<char> = Vec::new();
    let mut i: usize = 0;
    while i < n
        invariant
            n == s@.len(),
            i <= n,
            r@ == s@.take(i as int),
        decreases n - i,
    {
        r.push(s.get_char(i));
        assert(s@.take(i + 1) =~= s@.take(i as int).push(s@[i as int]));
        i += 1;
    }
    assert(s@.take(n as int) =~= s@);
    r
}

/// The name of one stacked tensor of the entry for `t`.
pub fn tensor_name_of(kind: TensorKind, t: &[u32]) -> (r: String)
    ensures
        r@ == tensor_name(kind, t@),
{
    let mut c: Vec<char> = Vec::new();
    c.push(
        match kind {
            TensorKind::Key => 'K',
            TensorKind::Value => 'V',
        },
    );
    c.push(':');
    let mut text = token_list_text(t);
    c.append(&mut text);
    string_from_chars(&c)
}

/// The kind and tokens that a tensor name stands for, if it is one.
pub fn parse_tensor_name(name: &str) -> (r: Option<(TensorKind, Vec<u32>)>)
    ensures
        r matches Some((k, v)) ==> tensor_name(k, v@) == name@,
        forall|k: TensorKind, t: Seq<u32>| tensor_name(k, t) == name@ ==> (r matches Some((k2, v)) && k2 == k && v@ == t),
{
    let c = chars_of(name);
    if c.len() < 2 || c[1] != ':' {
        return None;
    }
    let kind = if c[0] == 'K' {
        TensorKind::Key
    } else if c[0] == 'V' {
        TensorKind::Value
    } else {
        return None;
    };
    let mut rest: Vec<char> = Vec::new();
    let mut i: usize = 2;
    while i < c.len()
        invariant
            2 <= i <= c@.len(),
            rest@ == c@.subrange(2, i as int),
        decreases c@.len() - i,
    {
        rest.push(c[i]);
        i += 1;
    }
    assert(c@ =~= seq![c@[0], c@[1]] + rest@);
    assert forall|k: TensorKind, t: Seq<u32>| tensor_name(k, t) == name@ implies k == kind && join(t) == rest@ by {
        let n = tensor_name(k, t);
        assert(n[0] == kind_letter(k));
        assert(n.subrange(2, n.len() as int) =~= join(t));
        assert(rest@ =~= c@.subrange(2, c@.len() as int));
    }
    match parse_token_list(&rest) {
        Some(v) => Some((kind, v)),
        None => None,
    }
}

/// The file that holds the caches of model `model_id` saved under `base`.
pub fn cache_file_name(base: &str, model_id: &str) -> (r: String)
    ensures
        r@ == base@ + seq!['.'] + model_id@,
{
    let mut r = String::from_str(base);
    proof {
        reveal_strlit(".");
    }
    r.append(".");
    r.append(model_id);
    r
}

/// The sibling file that holds the auxiliary caches.
pub fn auxiliary_file_name(base: &str, model_id: &str) -> (r: String)
    ensures
        r@ == base@ + seq!['.'] + model_id@ + seq!['.', 'a', 'u', 'x', 'i', 'l', 'i', 'a', 'r', 'y'],
{
    let mut r = cache_file_name(base, model_id);
    proof {
        reveal_strlit(".auxiliary");
    }
    r.append(".auxiliary");
    r
}

} // verus!
