use vstd::prelude::*;

verus! {

broadcast use vstd::string::next_postcondition, vstd::string::axiom_spec_iter;

/// Collects the characters of a string slice.
pub fn str_chars(s: &str) -> (r: Vec<char>)
    ensures
        r@ == s@,
{
    let mut it = s.chars();
    let mut v: Vec<char> = Vec::new();
    loop
        invariant
            v@ + vstd::std_specs::iter::IteratorSpec::remaining(&it) == s@,
        ensures
            v@ == s@,
        decreases s@.len() - v@.len(),
    {
        match it.next() {
            Some(c) => {
                v.push(c);
                assert(v@ + vstd::std_specs::iter::IteratorSpec::remaining(&it) =~= s@);
            },
            None => {
                assert(v@ =~= s@);
                break ;
            },
        }
    }
    v
}

/// The fields of `s` split on the delimiter `d`, with `cur` standing as
/// the already-read head of the first field.
pub open spec fn split_on_pending(cur: Seq<char>, s: Seq<char>, d: Seq<char>) -> Seq<Seq<char>>
    decreases s.len(),
{
    if s.len() == 0 {
        seq![cur]
    } else if 1 <= d.len() <= s.len() && s.take(d.len() as int) == d {
        seq![cur].add(split_on_pending(Seq::<char>::empty(), s.skip(d.len() as int), d))
    } else {
        split_on_pending(cur.push(s[0]), s.skip(1), d)
    }
}

/// Splits a sequence on each occurrence of a non-empty delimiter; the
/// result always holds one more field than there are occurrences.
pub open spec fn split_on(s: Seq<char>, d: Seq<char>) -> Seq<Seq<char>> {
    split_on_pending(Seq::<char>::empty(), s, d)
}

/// A split yields at least one field.
pub proof fn lemma_split_on_pending_len(cur: Seq<char>, s: Seq<char>, d: Seq<char>)
    ensures
        split_on_pending(cur, s, d).len() >= 1,
    decreases s.len(),
{
    if s.len() == 0 {
    } else if 1 <= d.len() <= s.len() && s.take(d.len() as int) == d {
    } else {
        lemma_split_on_pending_len(cur.push(s[0]), s.skip(1), d);
    }
}

/// Whether the delimiter stands at position `pos` of `s`.
pub fn delim_at(s: &Vec<char>, pos: usize, d: &Vec<char>) -> (b: bool)
    requires
        pos <= s@.len(),
    ensures
        b == (d@.len() <= s@.len() - pos && s@.skip(pos as int).take(d@.len() as int) == d@),
{
    let n = s.len();
    if d.len() > n - pos {
        return false;
    }
    let mut i: usize = 0;
    while i < d.len()
        invariant
            pos + d@.len() <= s@.len(),
            s@.len() == n,
            i <= d@.len(),
            forall|j: int| 0 <= j < i ==> s@[pos + j] == d@[j],
        decreases d@.len() - i,
    {
        if s[pos + i] != d[i] {
            assert(s@.skip(pos as int).take(d@.len() as int)[i as int] != d@[i as int]);
            return false;
        }
        i = i + 1;
    }
    assert(s@.skip(pos as int).take(d@.len() as int) =~= d@);
    true
}

/// Splits a character vector on each occurrence of a non-empty delimiter.
pub fn split_chars(s: &Vec<char>, d: &Vec<char>) -> (r: Vec<Vec<char>>)
    requires
        d@.len() >= 1,
    ensures
        r.deep_view() == split_on(s@, d@),
{
    let mut done: Vec<Vec<char>> = Vec::new();
    let mut cur: Vec<char> = Vec::new();
    let mut pos: usize = 0;
    proof {
        assert(s@.skip(0) =~= s@);
        assert(done.deep_view() =~= Seq::<Seq<char>>::empty());
        assert(Seq::<Seq<char>>::empty().add(split_on_pending(cur@, s@, d@)) =~= split_on_pending(
            cur@,
            s@,
            d@,
        ));
    }
    while pos < s.len()
        invariant
            d@.len() >= 1,
            pos <= s@.len(),
            split_on(s@, d@) == done.deep_view().add(
                split_on_pending(cur@, s@.skip(pos as int), d@),
            ),
        decreases s@.len() - pos,
    {
        let ghost tail = s@.skip(pos as int);
        let ghost dv0 = done.deep_view();
        if delim_at(s, pos, d) {
            proof {
                assert(tail.skip(d@.len() as int) =~= s@.skip(pos + d@.len()));
                let x = split_on_pending(Seq::<char>::empty(), s@.skip(pos + d@.len()), d@);
                assert(split_on_pending(cur@, tail, d@) == seq![cur@].add(x));
                assert(dv0.add(seq![cur@].add(x)) =~= dv0.push(cur@).add(x));
            }
            let ghost cv = cur@;
            let dlen = d.len();
            done.push(cur);
            cur = Vec::new();
            pos = pos + dlen;
            proof {
                assert(done.deep_view() =~~= dv0.push(cv));
            }
        } else {
            proof {
                assert(tail.skip(1) =~= s@.skip(pos + 1));
                assert(split_on_pending(cur@, tail, d@) == split_on_pending(
                    cur@.push(tail[0]),
                    tail.skip(1),
                    d@,
                ));
            }
            let c = s[pos];
            cur.push(c);
            pos = pos + 1;
        }
    }
    proof {
        assert(s@.skip(pos as int) =~= Seq::<char>::empty());
        assert(split_on_pending(cur@, Seq::<char>::empty(), d@) == seq![cur@]);
        assert(done.deep_view().add(seq![cur@]) =~= done.deep_view().push(cur@));
    }
    let ghost dv1 = done.deep_view();
    let ghost cv1 = cur@;
    done.push(cur);
    proof {
        assert(done.deep_view() =~~= dv1.push(cv1));
    }
    done
}

/// Whether a character is ASCII whitespace as line handling counts it.
pub open spec fn ascii_ws(c: char) -> bool {
    c == ' ' || c == '\t' || c == '\r' || c == '\n' || c == '\u{B}' || c == '\u{C}'
}

/// Whether a line holds nothing but whitespace.
pub open spec fn is_blank(l: Seq<char>) -> bool {
    forall|i: int| 0 <= i < l.len() ==> ascii_ws(#[trigger] l[i])
}

/// Whether a character is ASCII whitespace.
pub fn is_ws_char(c: char) -> (b: bool)
    ensures
        b == ascii_ws(c),
{
    c == ' ' || c == '\t' || c == '\r' || c == '\n' || c == '\u{B}' || c == '\u{C}'
}

/// Whether a line holds nothing but whitespace.
pub fn is_blank_vec(l: &Vec<char>) -> (b: bool)
    ensures
        b == is_blank(l@),
{
    let mut i: usize = 0;
    while i < l.len()
        invariant
            i <= l@.len(),
            forall|j: int| 0 <= j < i ==> ascii_ws(#[trigger] l@[j]),
        decreases l@.len() - i,
    {
        if !is_ws_char(l[i]) {
            return false;
        }
        i = i + 1;
    }
    true
}

/// Whether `l` starts with the characters of `p`.
pub fn starts_with_chars(l: &Vec<char>, p: &Vec<char>) -> (b: bool)
    ensures
        b == (p@.len() <= l@.len() && l@.take(p@.len() as int) == p@),
{
    if p.len() > l.len() {
        return false;
    }
    let b = delim_at(l, 0, p);
    proof {
        assert(l@.skip(0) =~= l@);
    }
    b
}

/// The index of the first occurrence of a character, or -1.
pub open spec fn find_char(s: Seq<char>, c: char) -> int
    decreases s.len(),
{
    if s.len() == 0 {
        -1
    } else if s[0] == c {
        0
    } else {
        let r = find_char(s.skip(1), c);
        if r < 0 {
            -1
        } else {
            1 + r
        }
    }
}

/// Finds the first occurrence of a character.
pub fn find_char_vec(l: &Vec<char>, c: char) -> (r: Option<usize>)
    ensures
        match r {
            Some(i) => find_char(l@, c) == i && i < l@.len() && l@[i as int] == c,
            None => find_char(l@, c) == -1,
        },
{
    let mut i: usize = 0;
    proof {
        assert(l@.skip(0) =~= l@);
    }
    while i < l.len()
        invariant
            i <= l@.len(),
            ({
                let r2 = find_char(l@.skip(i as int), c);
                find_char(l@, c) == (if r2 < 0 {
                    -1int
                } else {
                    i + r2
                })
            }),
        decreases l@.len() - i,
    {
        proof {
            assert(l@.skip(i as int).skip(1) =~= l@.skip(i + 1));
        }
        if l[i] == c {
            return Some(i);
        }
        i = i + 1;
    }
    None
}

/// Copies the first `n` characters.
pub fn vec_take(l: &Vec<char>, n: usize) -> (r: Vec<char>)
    requires
        n <= l@.len(),
    ensures
        r@ == l@.take(n as int),
{
    let mut r: Vec<char> = Vec::new();
    let mut i: usize = 0;
    while i < n
        invariant
            i <= n <= l@.len(),
            r@ =~= l@.take(i as int),
        decreases n - i,
    {
        r.push(l[i]);
        assert(r@ =~= l@.take(i + 1));
        i = i + 1;
    }
    r
}

/// Copies everything from position `n` on.
pub fn vec_skip(l: &Vec<char>, n: usize) -> (r: Vec<char>)
    requires
        n <= l@.len(),
    ensures
        r@ == l@.skip(n as int),
{
    let mut r: Vec<char> = Vec::new();
    let mut i: usize = n;
    proof {
        assert(l@.subrange(n as int, n as int) =~= Seq::<char>::empty());
    }
    while i < l.len()
        invariant
            n <= i <= l@.len(),
            r@ =~= l@.subrange(n as int, i as int),
        decreases l@.len() - i,
    {
        r.push(l[i]);
        assert(r@ =~= l@.subrange(n as int, i + 1));
        i = i + 1;
    }
    proof {
        assert(l@.subrange(n as int, l@.len() as int) =~= l@.skip(n as int));
    }
    r
}

/// The line with its leading whitespace removed.
pub open spec fn trim_front(s: Seq<char>) -> Seq<char>
    decreases s.len(),
{
    if s.len() > 0 && ascii_ws(s[0]) {
        trim_front(s.skip(1))
    } else {
        s
    }
}

/// The line with its trailing whitespace removed.
pub open spec fn trim_back(s: Seq<char>) -> Seq<char>
    decreases s.len(),
{
    if s.len() > 0 && ascii_ws(s.last()) {
        trim_back(s.drop_last())
    } else {
        s
    }
}

/// The line with whitespace removed at both ends.
pub open spec fn trim(s: Seq<char>) -> Seq<char> {
    trim_back(trim_front(s))
}

/// Removes whitespace at both ends of a line.
pub fn trim_vec(l: &Vec<char>) -> (r: Vec<char>)
    ensures
        r@ == trim(l@),
{
    let mut a: usize = 0;
    proof {
        assert(l@.skip(0) =~= l@);
    }
    while a < l.len() && is_ws_char(l[a])
        invariant
            a <= l@.len(),
            trim_front(l@) == trim_front(l@.skip(a as int)),
        decreases l@.len() - a,
    {
        proof {
            assert(l@.skip(a as int).skip(1) =~= l@.skip(a + 1));
        }
        a = a + 1;
    }
    let ghost f = l@.skip(a as int);
    assert(trim_front(l@) == f);
    let mut b: usize = l.len();
    proof {
        assert(l@.subrange(a as int, l@.len() as int) =~= f);
    }
    while b > a && is_ws_char(l[b - 1])
        invariant
            a <= b <= l@.len(),
            trim_back(f) == trim_back(l@.subrange(a as int, b as int)),
        decreases b,
    {
        proof {
            let cur = l@.subrange(a as int, b as int);
            assert(cur.drop_last() =~= l@.subrange(a as int, b - 1));
        }
        b = b - 1;
    }
    proof {
        let cur = l@.subrange(a as int, b as int);
        if b > a {
            assert(cur.last() == l@[b - 1]);
            assert(!ascii_ws(cur.last()));
        }
        assert(trim_back(cur) == cur);
    }
    let mut r: Vec<char> = Vec::new();
    let mut i: usize = a;
    while i < b
        invariant
            a <= i <= b <= l@.len(),
            r@ =~= l@.subrange(a as int, i as int),
        decreases b - i,
    {
        r.push(l[i]);
        assert(r@ =~= l@.subrange(a as int, i + 1));
        i = i + 1;
    }
    r
}

/// The whitespace-separated tokens of a line after `cur`, with `cur`
/// standing as the already-read head of the next token.
pub open spec fn split_ws_pending(cur: Seq<char>, s: Seq<char>) -> Seq<Seq<char>>
    decreases s.len(),
{
    if s.len() == 0 {
        if cur.len() == 0 {
            Seq::<Seq<char>>::empty()
        } else {
            seq![cur]
        }
    } else if ascii_ws(s[0]) {
        if cur.len() == 0 {
            split_ws_pending(cur, s.skip(1))
        } else {
            seq![cur].add(split_ws_pending(Seq::<char>::empty(), s.skip(1)))
        }
    } else {
        split_ws_pending(cur.push(s[0]), s.skip(1))
    }
}

/// The maximal whitespace-free runs of a line, in order.
pub open spec fn split_ws(s: Seq<char>) -> Seq<Seq<char>> {
    split_ws_pending(Seq::<char>::empty(), s)
}

/// Splits a line into its whitespace-separated tokens.
pub fn split_ws_vec(l: &Vec<char>) -> (r: Vec<Vec<char>>)
    ensures
        r.deep_view() == split_ws(l@),
{
    let mut done: Vec<Vec<char>> = Vec::new();
    let mut cur: Vec<char> = Vec::new();
    let mut pos: usize = 0;
    proof {
        assert(l@.skip(0) =~= l@);
        assert(done.deep_view() =~= Seq::<Seq<char>>::empty());
        assert(Seq::<Seq<char>>::empty().add(split_ws_pending(cur@, l@)) =~= split_ws_pending(
            cur@,
            l@,
        ));
    }
    while pos < l.len()
        invariant
            pos <= l@.len(),
            split_ws(l@) == done.deep_view().add(split_ws_pending(cur@, l@.skip(pos as int))),
        decreases l@.len() - pos,
    {
        let ghost tail = l@.skip(pos as int);
        let ghost dv0 = done.deep_view();
        proof {
            assert(tail.skip(1) =~= l@.skip(pos + 1));
        }
        let c = l[pos];
        if is_ws_char(c) {
            if cur.len() > 0 {
                proof {
                    let x = split_ws_pending(Seq::<char>::empty(), tail.skip(1));
                    assert(split_ws_pending(cur@, tail) == seq![cur@].add(x));
                    assert(dv0.add(seq![cur@].add(x)) =~= dv0.push(cur@).add(x));
                }
                let ghost cv = cur@;
                done.push(cur);
                cur = Vec::new();
                proof {
                    assert(done.deep_view() =~~= dv0.push(cv));
                }
            }
            pos = pos + 1;
        } else {
            proof {
                assert(split_ws_pending(cur@, tail) == split_ws_pending(
                    cur@.push(tail[0]),
                    tail.skip(1),
                ));
            }
            cur.push(c);
            pos = pos + 1;
        }
    }
    proof {
        assert(l@.skip(pos as int) =~= Seq::<char>::empty());
    }
    if cur.len() > 0 {
        proof {
            assert(split_ws_pending(cur@, Seq::<char>::empty()) == seq![cur@]);
            assert(done.deep_view().add(seq![cur@]) =~= done.deep_view().push(cur@));
        }
        let ghost dv1 = done.deep_view();
        let ghost cv1 = cur@;
        done.push(cur);
        proof {
            assert(done.deep_view() =~~= dv1.push(cv1));
        }
    } else {
        proof {
            assert(done.deep_view().add(split_ws_pending(cur@, Seq::<char>::empty()))
                =~= done.deep_view());
        }
    }
    done
}

} // verus!
