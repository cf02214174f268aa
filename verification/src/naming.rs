use vstd::prelude::*;
use crate::text::{chars_string, str_chars};

verus! {

pub open spec fn digit_char(d: int) -> char {
    if d == 0 {
        '0'
    } else if d == 1 {
        '1'
    } else if d == 2 {
        '2'
    } else if d == 3 {
        '3'
    } else if d == 4 {
        '4'
    } else if d == 5 {
        '5'
    } else if d == 6 {
        '6'
    } else if d == 7 {
        '7'
    } else if d == 8 {
        '8'
    } else {
        '9'
    }
}

/// The decimal digits of `n`, most significant first.
pub open spec fn dec_digits(n: nat) -> Seq<char>
    decreases n,
{
    if n < 10 {
        seq![digit_char(n as int)]
    } else {
        dec_digits(n / 10) + seq![digit_char((n % 10) as int)]
    }
}

pub open spec fn has_dot(s: Seq<char>) -> bool {
    exists|i: int| 0 <= i < s.len() && s[i] == '.'
}

/// Position of the last '.' in `s`; `-1` when there is none.
pub open spec fn last_dot(s: Seq<char>) -> int
    decreases s.len(),
{
    if s.len() == 0 {
        -1
    } else if s[s.len() - 1] == '.' {
        s.len() - 1
    } else {
        last_dot(s.drop_last())
    }
}

pub proof fn lemma_last_dot(s: Seq<char>)
    ensures
        last_dot(s) == -1 <==> !has_dot(s),
        last_dot(s) != -1 ==> 0 <= last_dot(s) < s.len(),
        last_dot(s) != -1 ==> s[last_dot(s)] == '.',
        last_dot(s) != -1 ==> forall|j: int| last_dot(s) < j < s.len() ==> s[j] != '.',
    decreases s.len(),
{
    if s.len() == 0 {
    } else if s[s.len() - 1] == '.' {
    } else {
        let t = s.drop_last();
        lemma_last_dot(t);
        assert(forall|j: int| 0 <= j < t.len() ==> t[j] == s[j]);
        if last_dot(t) == -1 {
            assert(!has_dot(s)) by {
                if has_dot(s) {
                    let i = choose|i: int| 0 <= i < s.len() && s[i] == '.';
                    assert(i < s.len() - 1);
                    assert(t[i] == '.');
                }
            }
        } else {
            assert(s[last_dot(s)] == '.');
            assert forall|j: int| last_dot(s) < j < s.len() implies s[j] != '.' by {
                if j < s.len() - 1 {
                    assert(t[j] != '.');
                }
            }
        }
    }
}

/// The name with `_<ts>` spliced in before the extension: the part after the
/// last '.' is kept as the extension; a name without any '.' gets the default
/// extension "mp3".
pub open spec fn spec_timestamped(name: Seq<char>, ts: nat) -> Seq<char> {
    if has_dot(name) {
        name.take(last_dot(name)) + seq!['_'] + dec_digits(ts) + seq!['.'] + name.skip(
            last_dot(name) + 1,
        )
    } else {
        name + seq!['_'] + dec_digits(ts) + seq!['.', 'm', 'p', '3']
    }
}

/// The k-th fallback name for a timestamped name `t`: `_k` spliced in before
/// the extension of `t`.
pub open spec fn spec_candidate(t: Seq<char>, k: nat) -> Seq<char> {
    t.take(last_dot(t)) + seq!['_'] + dec_digits(k) + seq!['.'] + t.skip(last_dot(t) + 1)
}

/// Whether `s` occurs among the names `ex`.
pub open spec fn name_in(ex: Seq<String>, s: Seq<char>) -> bool {
    exists|i: int| 0 <= i < ex.len() && ex[i]@ == s
}

fn digit_exec(d: u64) -> (c: char)
    requires
        d < 10,
    ensures
        c == digit_char(d as int),
{
    if d == 0 {
        '0'
    } else if d == 1 {
        '1'
    } else if d == 2 {
        '2'
    } else if d == 3 {
        '3'
    } else if d == 4 {
        '4'
    } else if d == 5 {
        '5'
    } else if d == 6 {
        '6'
    } else if d == 7 {
        '7'
    } else if d == 8 {
        '8'
    } else {
        '9'
    }
}

fn push_dec_digits(out: &mut Vec<char>, n: u64)
    ensures
        final(out)@ == old(out)@ + dec_digits(n as nat),
    decreases n,
{
    if n < 10 {
        out.push(digit_exec(n));
        proof {
            assert(old(out)@ + dec_digits(n as nat) =~= old(out)@.push(digit_char(n as int)));
        }
    } else {
        push_dec_digits(out, n / 10);
        out.push(digit_exec(n % 10));
        proof {
            assert(old(out)@ + dec_digits(n as nat) =~= (old(out)@ + dec_digits(
                (n / 10) as nat,
            )).push(digit_char((n % 10) as int)));
        }
    }
}

fn find_last_dot(s: &Vec<char>) -> (r: Option<usize>)
    ensures
        match r {
            Some(i) => last_dot(s@) == i as int && i < s@.len(),
            None => last_dot(s@) == -1,
        },
{
    let mut i: usize = s.len();
    while i > 0
        invariant
            0 <= i <= s@.len(),
            forall|j: int| i <= j < s@.len() ==> s@[j] != '.',
        decreases i,
    {
        i -= 1;
        if s[i] == '.' {
            proof {
                lemma_last_dot(s@);
                assert(has_dot(s@));
                assert(last_dot(s@) == i);
            }
            return Some(i);
        }
    }
    proof {
        lemma_last_dot(s@);
        assert(!has_dot(s@));
    }
    None
}

/// `chars[..cut] + "_" + decimal(n) + "." + chars[tail_start..]`.
fn splice(chars: &Vec<char>, cut: usize, tail_start: usize, n: u64) -> (r: Vec<char>)
    requires
        cut <= chars@.len(),
        tail_start <= chars@.len(),
    ensures
        r@ == chars@.take(cut as int) + seq!['_'] + dec_digits(n as nat) + seq!['.'] + chars@.skip(
            tail_start as int,
        ),
{
    let mut out: Vec<char> = Vec::new();
    let mut i: usize = 0;
    while i < cut
        invariant
            i <= cut <= chars@.len(),
            out@ == chars@.take(i as int),
        decreases cut - i,
    {
        out.push(chars[i]);
        proof {
            assert(chars@.take((i + 1) as int) =~= chars@.take(i as int).push(chars@[i as int]));
        }
        i += 1;
    }
    out.push('_');
    push_dec_digits(&mut out, n);
    out.push('.');
    let ghost mid = chars@.take(cut as int) + seq!['_'] + dec_digits(n as nat) + seq!['.'];
    proof {
        assert(out@ =~= mid);
    }
    let mut j: usize = tail_start;
    while j < chars.len()
        invariant
            tail_start <= j <= chars@.len(),
            out@ == mid + chars@.subrange(tail_start as int, j as int),
        decreases chars@.len() - j,
    {
        out.push(chars[j]);
        proof {
            assert(mid + chars@.subrange(tail_start as int, (j + 1) as int) =~= (mid
                + chars@.subrange(tail_start as int, j as int)).push(chars@[j as int]));
        }
        j += 1;
    }
    proof {
        assert(out@ =~= chars@.take(cut as int) + seq!['_'] + dec_digits(n as nat) + seq!['.']
            + chars@.skip(tail_start as int));
    }
    out
}

/// The timestamped form of `name`: `<stem>_<ts>.<ext>` when the name has an
/// extension, `<name>_<ts>.mp3` otherwise.
pub fn timestamped_name(name: &str, ts: u64) -> (r: String)
    ensures
        r@ == spec_timestamped(name@, ts as nat),
{
    let chars = str_chars(name);
    match find_last_dot(&chars) {
        Some(ld) => {
            let n = chars.len();
            proof {
                assert(ld < n);
            }
            let out = splice(&chars, ld, ld + 1, ts);
            proof {
                lemma_last_dot(chars@);
                assert(has_dot(chars@));
                assert(out@ =~= spec_timestamped(name@, ts as nat));
            }
            chars_string(&out)
        },
        None => {
            let mut out = splice(&chars, chars.len(), chars.len(), ts);
            out.push('m');
            out.push('p');
            out.push('3');
            proof {
                lemma_last_dot(chars@);
                assert(!has_dot(chars@));
                assert(chars@.take(chars@.len() as int) =~= chars@);
                assert(out@ =~= spec_timestamped(name@, ts as nat));
            }
            chars_string(&out)
        },
    }
}

fn candidate_name(t: &Vec<char>, k: u64) -> (r: Vec<char>)
    requires
        last_dot(t@) >= 0,
    ensures
        r@ == spec_candidate(t@, k as nat),
{
    let ldo = find_last_dot(t);
    let ld = ldo.unwrap();
    let n = t.len();
    proof {
        assert(ld < n);
    }
    splice(t, ld, ld + 1, k)
}

fn contains_name(ex: &Vec<String>, s: &String) -> (r: bool)
    ensures
        r == name_in(ex@, s@),
{
    let mut i: usize = 0;
    while i < ex.len()
        invariant
            0 <= i <= ex@.len(),
            forall|j: int| 0 <= j < i ==> ex@[j]@ != s@,
        decreases ex@.len() - i,
    {
        if ex[i] == *s {
            proof {
                assert(name_in(ex@, s@));
            }
            return true;
        }
        i += 1;
    }
    false
}

proof fn lemma_dec_len(n: nat)
    ensures
        dec_digits(n).len() >= 1,
        n >= 10 ==> dec_digits(n).len() >= 2,
        n < 10 ==> dec_digits(n).len() == 1,
    decreases n,
{
    if n >= 10 {
        lemma_dec_len(n / 10);
    }
}

proof fn lemma_digit_char_inj(a: int, b: int)
    requires
        0 <= a < 10,
        0 <= b < 10,
        digit_char(a) == digit_char(b),
    ensures
        a == b,
{
}

proof fn lemma_dec_inj(a: nat, b: nat)
    requires
        dec_digits(a) == dec_digits(b),
    ensures
        a == b,
    decreases a,
{
    lemma_dec_len(a);
    lemma_dec_len(b);
    if a < 10 && b < 10 {
        assert(dec_digits(a)[0] == digit_char(a as int));
        assert(dec_digits(b)[0] == digit_char(b as int));
        lemma_digit_char_inj(a as int, b as int);
    } else if a >= 10 && b >= 10 {
        let da = dec_digits(a / 10);
        let db = dec_digits(b / 10);
        assert(dec_digits(a)[dec_digits(a).len() - 1] == digit_char((a % 10) as int));
        assert(dec_digits(b)[dec_digits(b).len() - 1] == digit_char((b % 10) as int));
        lemma_digit_char_inj((a % 10) as int, (b % 10) as int);
        assert(da =~= db) by {
            assert(da.len() == db.len());
            assert(forall|i: int|
                0 <= i < da.len() ==> da[i] == dec_digits(a)[i] && db[i] == dec_digits(b)[i]);
        }
        lemma_dec_inj(a / 10, b / 10);
    } else {
        assert(false);
    }
}

proof fn lemma_candidate_inj(t: Seq<char>, k1: nat, k2: nat)
    requires
        spec_candidate(t, k1) == spec_candidate(t, k2),
    ensures
        k1 == k2,
{
    let a = t.take(last_dot(t)) + seq!['_'];
    let d1 = dec_digits(k1);
    let d2 = dec_digits(k2);
    let b = seq!['.'] + t.skip(last_dot(t) + 1);
    assert(spec_candidate(t, k1) =~= a + d1 + b);
    assert(spec_candidate(t, k2) =~= a + d2 + b);
    assert(d1.len() == d2.len());
    assert(d1 =~= d2) by {
        assert(forall|i: int| 0 <= i < d1.len() ==> (a + d1 + b)[a.len() + i] == d1[i]);
        assert(forall|i: int| 0 <= i < d2.len() ==> (a + d2 + b)[a.len() + i] == d2[i]);
    }
    lemma_dec_inj(k1, k2);
}

/// Among the fallback counters `lo ..= lo + ex.len()` there is always one
/// whose candidate name is not taken: there are more candidates than names.
proof fn lemma_free_candidate(ex: Seq<String>, t: Seq<char>, lo: nat)
    ensures
        exists|k: nat|
            lo <= k <= lo + ex.len() && !name_in(ex, spec_candidate(t, k)),
    decreases ex.len(),
{
    if !name_in(ex, spec_candidate(t, lo)) {
        assert(lo <= lo <= lo + ex.len() && !name_in(ex, spec_candidate(t, lo)));
    } else {
        let i = choose|i: int| 0 <= i < ex.len() && ex[i]@ == spec_candidate(t, lo);
        let ex2 = ex.subrange(0, i) + ex.subrange(i + 1, ex.len() as int);
        lemma_free_candidate(ex2, t, lo + 1);
        let k = choose|k: nat|
            lo + 1 <= k <= lo + 1 + ex2.len() && !name_in(ex2, spec_candidate(t, k));
        assert(!name_in(ex, spec_candidate(t, k))) by {
            if name_in(ex, spec_candidate(t, k)) {
                let j = choose|j: int| 0 <= j < ex.len() && ex[j]@ == spec_candidate(t, k);
                if j == i {
                    lemma_candidate_inj(t, lo, k);
                    assert(false);
                } else if j < i {
                    assert(ex2[j] == ex[j]);
                    assert(name_in(ex2, spec_candidate(t, k)));
                    assert(false);
                } else {
                    assert(ex2[j - 1] == ex[j]);
                    assert(name_in(ex2, spec_candidate(t, k)));
                    assert(false);
                }
            }
        }
        assert(lo <= k <= lo + ex.len() && !name_in(ex, spec_candidate(t, k)));
    }
}

proof fn lemma_timestamped_has_dot(name: Seq<char>, ts: nat)
    ensures
        last_dot(spec_timestamped(name, ts)) >= 0,
{
    let t = spec_timestamped(name, ts);
    lemma_last_dot(t);
    lemma_dec_len(ts);
    if has_dot(name) {
        lemma_last_dot(name);
        assert(t[last_dot(name) + 1 + dec_digits(ts).len() as int] == '.');
        assert(has_dot(t));
    } else {
        assert(t[name.len() as int + 1 + dec_digits(ts).len() as int] == '.');
        assert(has_dot(t));
    }
}

/// The name the audio file is saved under, given the names already present in
/// the output directory: the timestamped name when it does not collide, else
/// the candidate with the smallest counter `k >= 1` that does not collide.
pub fn pick_filename(name: &str, ts: u64, existing: &Vec<String>) -> (r: String)
    requires
        existing@.len() < usize::MAX - 1,
    ensures
        ({
            let t = spec_timestamped(name@, ts as nat);
            if !name_in(existing@, t) {
                r@ == t
            } else {
                exists|k: nat|
                    1 <= k && r@ == spec_candidate(t, k) && !name_in(
                        existing@,
                        spec_candidate(t, k),
                    ) && forall|j: nat| 1 <= j < k ==> name_in(existing@, spec_candidate(t, j))
            }
        }),
{
    let t = timestamped_name(name, ts);
    if !contains_name(existing, &t) {
        return t;
    }
    let tchars = str_chars(t.as_str());
    proof {
        lemma_timestamped_has_dot(name@, ts as nat);
    }
    let mut k: usize = 1;
    loop
        invariant
            existing@.len() < usize::MAX - 1,
            1 <= k <= existing@.len() + 1,
            tchars@ == spec_timestamped(name@, ts as nat),
            last_dot(tchars@) >= 0,
            name_in(existing@, spec_timestamped(name@, ts as nat)),
            forall|j: nat| 1 <= j < k ==> name_in(existing@, spec_candidate(tchars@, j)),
        decreases existing@.len() + 1 - k,
    {
        let c = candidate_name(&tchars, k as u64);
        let cs = chars_string(&c);
        if !contains_name(existing, &cs) {
            proof {
                assert(1 <= k as nat && cs@ == spec_candidate(tchars@, k as nat) && !name_in(
                    existing@,
                    spec_candidate(tchars@, k as nat),
                ) && forall|j: nat|
                    1 <= j < k as nat ==> name_in(existing@, spec_candidate(tchars@, j)));
            }
            return cs;
        }
        proof {
            if k as int >= existing@.len() + 1 {
                lemma_free_candidate(existing@, tchars@, 1);
                let kw = choose|kw: nat|
                    1 <= kw <= 1 + existing@.len() && !name_in(
                        existing@,
                        spec_candidate(tchars@, kw),
                    );
                assert(name_in(existing@, spec_candidate(tchars@, kw)));
                assert(false);
            }
        }
        k += 1;
    }
}

} // verus!
