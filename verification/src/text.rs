use vstd::prelude::*;
use crate::outside::push_char;

verus! {

/// The characters of `s`, in order.
pub fn chars_of(s: &str) -> (res: Vec<char>)
    ensures
        res@ == s@,
{
    let n = s.unicode_len();
    let mut res: Vec<char> = Vec::new();
    let mut i: usize = 0;
    while i < n
        invariant
            n == s@.len(),
            i <= n,
            res@ == s@.take(i as int),
        decreases n - i,
    {
        res.push(s.get_char(i));
        i = i + 1;
    }
    assert(s@.take(n as int) =~= s@);
    res
}

/// A `String` holding the characters `chars[from..to]`.
pub fn string_of(chars: &Vec<char>, from: usize, to: usize) -> (res: String)
    requires
        from <= to <= chars@.len(),
    ensures
        res@ == chars@.subrange(from as int, to as int),
{
    let mut res = String::new();
    let mut i = from;
    while i < to
        invariant
            from <= i <= to <= chars@.len(),
            res@ == chars@.subrange(from as int, i as int),
        decreases to - i,
    {
        push_char(&mut res, chars[i]);
        assert(chars@.subrange(from as int, i + 1) =~= chars@.subrange(from as int, i as int).push(chars@[i as int]));
        i = i + 1;
    }
    res
}

} // verus!

verus! {

/// The text `rep` between every two characters of `s` and at both ends: what
/// replacing an empty pattern gives.
pub open spec fn interleave(s: Seq<char>, rep: Seq<char>) -> Seq<char>
    decreases s.len(),
{
    if s.len() == 0 {
        rep
    } else {
        rep + seq![s[0]] + interleave(s.drop_first(), rep)
    }
}

/// `s` with every non-overlapping occurrence of `pat`, scanned from the left,
/// replaced by `rep` (the meaning of `str::replace`).
pub open spec fn replace_all(s: Seq<char>, pat: Seq<char>, rep: Seq<char>) -> Seq<char>
    decreases s.len(),
{
    if pat.len() == 0 {
        interleave(s, rep)
    } else if s.len() < pat.len() {
        s
    } else if s.take(pat.len() as int) == pat {
        rep + replace_all(s.skip(pat.len() as int), pat, rep)
    } else {
        seq![s[0]] + replace_all(s.drop_first(), pat, rep)
    }
}

/// The index of the first `c` in `s`, or `s.len()` when there is none.
pub open spec fn first_index(s: Seq<char>, c: char) -> int
    decreases s.len(),
{
    if s.len() == 0 {
        0
    } else if s[0] == c {
        0
    } else {
        1 + first_index(s.drop_first(), c)
    }
}

/// The pieces of `s` between occurrences of `c` (the meaning of `str::split`
/// with a character): one more piece than there are `c`s.
pub open spec fn split_on(s: Seq<char>, c: char) -> Seq<Seq<char>>
    decreases s.len(),
{
    let k = first_index(s, c);
    if k >= s.len() {
        seq![s]
    } else {
        proof {
            lemma_first_index(s, c);
        }
        seq![s.take(k)] + split_on(s.skip(k + 1), c)
    }
}

/// The texts of a sequence of strings.
pub open spec fn views(v: Seq<String>) -> Seq<Seq<char>> {
    v.map_values(|x: String| x@)
}

pub proof fn lemma_first_index(s: Seq<char>, c: char)
    ensures
        0 <= first_index(s, c) <= s.len(),
        first_index(s, c) < s.len() ==> s[first_index(s, c)] == c,
        forall|j: int| 0 <= j < first_index(s, c) ==> s[j] != c,
    decreases s.len(),
{
    if s.len() > 0 && s[0] != c {
        lemma_first_index(s.drop_first(), c);
        assert forall|j: int| 0 <= j < first_index(s, c) implies s[j] != c by {
            if j > 0 {
                assert(s[j] == s.drop_first()[j - 1]);
            }
        }
    }
}

proof fn lemma_first_index_at(s: Seq<char>, c: char, k: int)
    requires
        0 <= k <= s.len(),
        k < s.len() ==> s[k] == c,
        forall|j: int| 0 <= j < k ==> s[j] != c,
    ensures
        first_index(s, c) == k,
    decreases s.len(),
{
    if s.len() > 0 && k > 0 {
        assert(s[0] != c);
        assert forall|j: int| 0 <= j < k - 1 implies s.drop_first()[j] != c by {
            assert(s[j + 1] != c);
        }
        lemma_first_index_at(s.drop_first(), c, k - 1);
    }
}

/// Whether `pat` occurs in `s` at index `i`.
fn occurs_at(s: &Vec<char>, i: usize, pat: &Vec<char>) -> (res: bool)
    requires
        i <= s@.len(),
    ensures
        res == (i + pat@.len() <= s@.len() && s@.subrange(i as int, i + pat@.len()) == pat@),
{
    if pat.len() > s.len() - i {
        return false;
    }
    let mut j: usize = 0;
    while j < pat.len()
        invariant
            i + pat@.len() <= s@.len(),
            s@.len() == s.len(),
            j <= pat@.len(),
            forall|k: int| 0 <= k < j ==> s@[i + k] == pat@[k],
        decreases pat@.len() - j,
    {
        if s[i + j] != pat[j] {
            assert(s@.subrange(i as int, i + pat@.len())[j as int] != pat@[j as int]);
            return false;
        }
        j = j + 1;
    }
    assert(s@.subrange(i as int, i + pat@.len()) =~= pat@);
    true
}

/// Appends all characters of `chars` to `out`.
fn push_all(out: &mut String, chars: &Vec<char>)
    ensures
        final(out)@ == old(out)@ + chars@,
{
    let mut j: usize = 0;
    while j < chars.len()
        invariant
            j <= chars@.len(),
            out@ == old(out)@ + chars@.take(j as int),
        decreases chars@.len() - j,
    {
        push_char(out, chars[j]);
        assert(chars@.take(j + 1) =~= chars@.take(j as int).push(chars@[j as int]));
        j = j + 1;
    }
    assert(chars@.take(chars@.len() as int) =~= chars@);
}

/// `s` with every occurrence of `pat` replaced by `rep`, as `str::replace` does.
pub fn replace_all_str(s: &str, pat: &str, rep: &str) -> (res: String)
    ensures
        res@ == replace_all(s@, pat@, rep@),
{
    let sc = chars_of(s);
    let pc = chars_of(pat);
    let rc = chars_of(rep);
    let n = sc.len();
    let mut out = String::new();
    let mut i: usize = 0;
    assert(sc@.skip(0) =~= sc@);
    if pc.len() == 0 {
        while i < n
            invariant
                n == sc@.len(),
                i <= n,
                out@ + interleave(sc@.skip(i as int), rc@) == interleave(sc@, rc@),
            decreases n - i,
        {
            let ghost before = out@;
            push_all(&mut out, &rc);
            push_char(&mut out, sc[i]);
            assert(sc@.skip(i as int).drop_first() =~= sc@.skip(i + 1));
            assert(out@ + interleave(sc@.skip(i + 1), rc@) =~= before + interleave(sc@.skip(i as int), rc@));
            i = i + 1;
        }
        push_all(&mut out, &rc);
        assert(sc@.skip(n as int) =~= Seq::<char>::empty());
        return out;
    }
    while i < n
        invariant
            n == sc@.len(),
            i <= n,
            pc@.len() > 0,
            out@ + replace_all(sc@.skip(i as int), pc@, rc@) == replace_all(sc@, pc@, rc@),
        decreases n - i,
    {
        let ghost before = out@;
        let ghost rest = sc@.skip(i as int);
        if occurs_at(&sc, i, &pc) {
            assert(rest.take(pc@.len() as int) =~= sc@.subrange(i as int, i + pc@.len()));
            assert(rest.skip(pc@.len() as int) =~= sc@.skip(i + pc@.len()));
            push_all(&mut out, &rc);
            i = i + pc.len();
            assert(out@ + replace_all(sc@.skip(i as int), pc@, rc@) =~= before + replace_all(rest, pc@, rc@));
        } else {
            if n - i >= pc.len() {
                assert(rest.take(pc@.len() as int) =~= sc@.subrange(i as int, i + pc@.len()));
                assert(rest.drop_first() =~= sc@.skip(i + 1));
                push_char(&mut out, sc[i]);
                i = i + 1;
                assert(out@ + replace_all(sc@.skip(i as int), pc@, rc@) =~= before + replace_all(rest, pc@, rc@));
            } else {
                // too few characters left for another occurrence
                let tail = string_of(&sc, i, n);
                assert(tail@ =~= rest);
                out.append(tail.as_str());
                i = n;
                assert(sc@.skip(n as int) =~= Seq::<char>::empty());
                assert(replace_all(Seq::<char>::empty(), pc@, rc@) =~= Seq::<char>::empty());
                assert(out@ + replace_all(sc@.skip(i as int), pc@, rc@) =~= before + replace_all(rest, pc@, rc@));
            }
        }
    }
    assert(sc@.skip(n as int) =~= Seq::<char>::empty());
    assert(replace_all(Seq::<char>::empty(), pc@, rc@) =~= Seq::<char>::empty());
    assert(out@ =~= out@ + Seq::<char>::empty());
    out
}

/// The pieces of `s` between the occurrences of `sep`, as `str::split` with a
/// character gives them.
pub fn split_str(s: &str, sep: char) -> (res: Vec<String>)
    ensures
        views(res@) == split_on(s@, sep),
{
    let sc = chars_of(s);
    let n = sc.len();
    let mut out: Vec<String> = Vec::new();
    let mut start: usize = 0;
    let mut i: usize = 0;
    assert(sc@.skip(0) =~= sc@);
    while i < n
        invariant
            n == sc@.len(),
            start <= i <= n,
            forall|j: int| start <= j < i ==> sc@[j] != sep,
            views(out@) + split_on(sc@.skip(start as int), sep) == split_on(sc@, sep),
        decreases n - i,
    {
        if sc[i] == sep {
            let ghost rest = sc@.skip(start as int);
            proof {
                assert forall|j: int| 0 <= j < i - start implies rest[j] != sep by {
                    assert(rest[j] == sc@[start + j]);
                }
                lemma_first_index_at(rest, sep, i - start);
                assert(rest.take(i - start) =~= sc@.subrange(start as int, i as int));
                assert(rest.skip(i - start + 1) =~= sc@.skip(i + 1));
            }
            let piece = string_of(&sc, start, i);
            let ghost old_out = out@;
            out.push(piece);
            assert(views(out@) =~= views(old_out).push(piece@));
            assert(views(out@) + split_on(sc@.skip(i + 1), sep) =~= views(old_out) + split_on(rest, sep));
            start = i + 1;
        }
        i = i + 1;
    }
    let ghost rest = sc@.skip(start as int);
    proof {
        assert forall|j: int| 0 <= j < rest.len() implies rest[j] != sep by {
            assert(rest[j] == sc@[start + j]);
        }
        lemma_first_index_at(rest, sep, rest.len() as int);
    }
    let piece = string_of(&sc, start, n);
    assert(piece@ =~= rest);
    let ghost old_out = out@;
    out.push(piece);
    assert(views(out@) =~= views(old_out).push(piece@));
    assert(views(out@) =~= views(old_out) + split_on(rest, sep));
    out
}

} // verus!

verus! {

/// An owned copy of `s`.
pub fn owned(s: &str) -> (res: String)
    ensures
        res@ == s@,
{
    let mut r = String::new();
    r.append(s);
    r
}

/// The characters `s[from..to]` as a new string.
pub fn substring(s: &str, from: usize, to: usize) -> (res: String)
    requires
        from <= to <= s@.len(),
    ensures
        res@ == s@.subrange(from as int, to as int),
{
    let c = chars_of(s);
    string_of(&c, from, to)
}

} // verus!

verus! {

/// Whether two texts are equal.
pub fn text_eq(a: &str, b: &str) -> (res: bool)
    ensures
        res == (a@ == b@),
{
    let ac = chars_of(a);
    let bc = chars_of(b);
    if ac.len() != bc.len() {
        assert(ac@.len() != bc@.len());
        return false;
    }
    let mut i: usize = 0;
    while i < ac.len()
        invariant
            ac@ == a@,
            bc@ == b@,
            ac@.len() == bc@.len(),
            i <= ac@.len(),
            forall|k: int| 0 <= k < i ==> ac@[k] == bc@[k],
        decreases ac@.len() - i,
    {
        if ac[i] != bc[i] {
            assert(ac@[i as int] != bc@[i as int]);
            return false;
        }
        i = i + 1;
    }
    assert(ac@ =~= bc@);
    true
}

} // verus!

verus! {

/// The texts of `ws` with `sep` between each two (the meaning of `join`).
pub open spec fn join(ws: Seq<Seq<char>>, sep: Seq<char>) -> Seq<char>
    decreases ws.len(),
{
    if ws.len() == 0 {
        seq![]
    } else if ws.len() == 1 {
        ws[0]
    } else {
        ws[0] + sep + join(ws.drop_first(), sep)
    }
}

/// The strings of `ws` with `sep` between each two.
pub fn join_str(ws: &Vec<String>, sep: &str) -> (res: String)
    ensures
        res@ == join(views(ws@), sep@),
{
    let n = ws.len();
    if n == 0 {
        return String::new();
    }
    let mut out = String::new();
    let mut i: usize = n;
    // built from the back: out holds join of ws[i..]
    out.append(ws[n - 1].as_str());
    i = n - 1;
    proof {
        assert(views(ws@).subrange(i as int, n as int) =~= seq![ws@[i as int]@]);
    }
    while i > 0
        invariant
            n == ws@.len(),
            i < n,
            out@ == join(views(ws@).subrange(i as int, n as int), sep@),
        decreases i,
    {
        let mut front = ws[i - 1].clone();
        front.append(sep);
        front.append(out.as_str());
        proof {
            let tail = views(ws@).subrange(i - 1, n as int);
            assert(tail.drop_first() =~= views(ws@).subrange(i as int, n as int));
            assert(tail[0] == ws@[i - 1]@);
        }
        out = front;
        i = i - 1;
    }
    proof {
        assert(views(ws@).subrange(0, n as int) =~= views(ws@));
    }
    out
}

/// Splitting at a character and joining with it gives the text back.
pub proof fn lemma_join_split(s: Seq<char>, c: char)
    ensures
        join(split_on(s, c), seq![c]) == s,
    decreases s.len(),
{
    lemma_first_index(s, c);
    let k = first_index(s, c);
    if k < s.len() {
        lemma_join_split(s.skip(k + 1), c);
        let rest = split_on(s.skip(k + 1), c);
        crate::builtins::alias::lemma_split_on_len(s.skip(k + 1), c);
        let whole = seq![s.take(k)] + rest;
        assert(whole.drop_first() =~= rest);
        assert(s =~= s.take(k) + seq![c] + s.skip(k + 1));
    }
}

} // verus!
