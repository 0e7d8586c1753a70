use vstd::prelude::*;
use vstd::arithmetic::div_mod::lemma_fundamental_div_mod_converse;

verus! {

/// `x` is a prefix of `y`; a sequence is a prefix of itself.
pub open spec fn is_prefix(x: Seq<char>, y: Seq<char>) -> bool {
    x.len() <= y.len() && y.subrange(0, x.len() as int) == x
}

/// No code of `s` is a prefix of another code of `s` (so all are distinct too).
pub open spec fn prefix_free(s: Seq<Seq<char>>) -> bool {
    forall|i: int, j: int|
        0 <= i < s.len() && 0 <= j < s.len() && i != j ==> !is_prefix(#[trigger] s[i], #[trigger] s[j])
}

/// The codes one character longer than `ps`: each of `ps` in turn, followed by
/// each letter in alphabet order.
pub open spec fn children(ps: Seq<Seq<char>>, letters: Seq<char>) -> Seq<Seq<char>> {
    Seq::new(
        ps.len() * letters.len(),
        |t: int| ps[t / letters.len() as int].push(letters[t % letters.len() as int]),
    )
}

/// How many codes of one length must turn into prefixes so that `needed` codes
/// fit, when `len` codes of that length are at hand and `needed > len`: each
/// prefix trades one code for `a` longer ones.
pub open spec fn roots_needed(a: nat, needed: nat, len: nat) -> nat {
    let gap = needed - len;
    let d = a - 1;
    (gap / d + if gap % d == 0 { 0int } else { 1int }) as nat
}

/// The codes chosen when `level` holds the candidate codes of the current
/// length and `needed` codes are still to be handed out. The last
/// `roots_needed` codes of the level become prefixes; when even all of them
/// are not enough, the whole level turns into prefixes and the next length is
/// tried.
pub open spec fn layout(letters: Seq<char>, needed: nat, level: Seq<Seq<char>>) -> Seq<Seq<char>>
    decreases (if needed > level.len() { needed - level.len() } else { 0int }),
{
    if needed <= level.len() {
        level.take(needed as int)
    } else if letters.len() < 2 || level.len() == 0 {
        level
    } else {
        let k = roots_needed(letters.len(), needed, level.len());
        if k <= level.len() {
            let keep = level.len() - k;
            level.take(keep) + children(level.skip(keep), letters).take(needed - keep)
        } else {
            proof {
                lemma_children_grow(level.len(), letters.len());
            }
            layout(letters, needed, children(level, letters))
        }
    }
}

/// Turning a level into prefixes gives more codes than it had.
pub proof fn lemma_children_grow(len: nat, a: nat)
    requires
        len >= 1,
        a >= 2,
    ensures
        len * a >= len + 1,
{
    assert(len * a >= len * 2) by (nonlinear_arith)
        requires
            a >= 2,
    ;
}

/// The one-letter codes, in alphabet order.
pub open spec fn singles(letters: Seq<char>) -> Seq<Seq<char>> {
    Seq::new(letters.len(), |i: int| seq![letters[i]])
}

/// The `n` hint codes built over `letters`, in the order they are handed out.
pub open spec fn hint_codes(letters: Seq<char>, n: nat) -> Seq<Seq<char>> {
    layout(letters, n, singles(letters))
}

/// Why no hint codes could be built from an alphabet.
#[derive(Debug, Clone, Copy, PartialEq, Eq, Structural)]
pub enum HintError {
    /// The alphabet has no letters.
    EmptyAlphabet,
    /// A letter occurs twice in the alphabet.
    RepeatedLetter,
    /// A one-letter alphabet can label a single match only.
    TooFewLetters,
}


/// Every code of `codes` has length `l`.
pub open spec fn uniform(codes: Seq<Seq<char>>, l: nat) -> bool {
    forall|i: int| 0 <= i < codes.len() ==> (#[trigger] codes[i]).len() == l
}

/// Every character of every code is a letter of `letters`.
pub open spec fn drawn_from(codes: Seq<Seq<char>>, letters: Seq<char>) -> bool {
    forall|i: int, j: int|
        0 <= i < codes.len() && 0 <= j < codes[i].len() ==> letters.contains(#[trigger] codes[i][j])
}

/// Code lengths never decrease along the sequence.
pub open spec fn lengths_sorted(codes: Seq<Seq<char>>) -> bool {
    forall|i: int, j: int|
        0 <= i <= j < codes.len() ==> (#[trigger] codes[i]).len() <= (#[trigger] codes[j]).len()
}

/// The text of each code.
pub open spec fn codes_view(codes: Seq<Vec<char>>) -> Seq<Seq<char>> {
    codes.map_values(|c: Vec<char>| c@)
}

proof fn lemma_index_split(t: int, a: int, len: int)
    requires
        0 <= t < len * a,
        a > 0,
    ensures
        0 <= t / a < len,
        0 <= t % a < a,
        t == a * (t / a) + t % a,
{
    vstd::arithmetic::div_mod::lemma_fundamental_div_mod(t, a);
    vstd::arithmetic::div_mod::lemma_mod_bound(t, a);
    vstd::arithmetic::div_mod::lemma_div_pos_is_pos(t, a);
    assert(t < a * len) by (nonlinear_arith)
        requires
            t < len * a,
    ;
    vstd::arithmetic::div_mod::lemma_multiply_divide_lt(t, a, len);
}

/// With `k` prefixes, `d + 1` letters and `gap` missing codes: `k` prefixes are
/// enough, and when more are needed than `len` the gap exceeds what `len` give.
proof fn lemma_roots(gap: int, d: int, len: int)
    requires
        gap >= 1,
        d >= 1,
        len >= 0,
    ensures
        ({
            let k = gap / d + if gap % d == 0 { 0int } else { 1int };
            &&& k >= 1
            &&& k * d >= gap
            &&& k * (d + 1) == k * d + k
            &&& k > len ==> gap > len * d
        }),
{
    let q = gap / d;
    let r = gap % d;
    vstd::arithmetic::div_mod::lemma_fundamental_div_mod(gap, d);
    vstd::arithmetic::div_mod::lemma_mod_bound(gap, d);
    vstd::arithmetic::div_mod::lemma_div_pos_is_pos(gap, d);
    let k = q + if r == 0 { 0int } else { 1int };
    assert(k * (d + 1) == k * d + k) by (nonlinear_arith);
    if r == 0 {
        assert(gap == q * d) by (nonlinear_arith)
            requires
                gap == d * q + r,
                r == 0,
        ;
        assert(k >= 1) by (nonlinear_arith)
            requires
                gap == q * d,
                gap >= 1,
                d >= 1,
                k == q,
        ;
        assert(k > len ==> gap > len * d) by (nonlinear_arith)
            requires
                gap == q * d,
                d >= 1,
                k == q,
        ;
    } else {
        assert(k * d >= gap) by (nonlinear_arith)
            requires
                gap == d * q + r,
                r < d,
                k == q + 1,
        ;
        assert(k > len ==> gap > len * d) by (nonlinear_arith)
            requires
                gap == d * q + r,
                r > 0,
                d >= 1,
                k == q + 1,
                q >= 0,
        ;
    }
}

proof fn lemma_children(ps: Seq<Seq<char>>, letters: Seq<char>, l: nat)
    requires
        letters.len() >= 1,
        letters.no_duplicates(),
        ps.no_duplicates(),
        uniform(ps, l),
        drawn_from(ps, letters),
    ensures
        uniform(children(ps, letters), l + 1),
        children(ps, letters).no_duplicates(),
        drawn_from(children(ps, letters), letters),
        forall|t: int|
            0 <= t < children(ps, letters).len() ==> 0 <= #[trigger] (t / (letters.len() as int))
                < ps.len(),
        forall|t: int|
            0 <= t < children(ps, letters).len() ==> (#[trigger] children(ps, letters)[t]).subrange(
                0,
                l as int,
            ) == ps[t / (letters.len() as int)],
{
    let a = letters.len() as int;
    let c = children(ps, letters);
    assert forall|t: int| 0 <= t < c.len() implies 0 <= t / a < ps.len() && (#[trigger] c[t]).subrange(
        0,
        l as int,
    ) == ps[t / a] && c[t].len() == l + 1 && c[t][l as int] == letters[t % a] by {
        lemma_index_split(t, a, ps.len() as int);
        assert(c[t].subrange(0, l as int) =~= ps[t / a]);
    }
    assert forall|t: int| 0 <= t < c.len() implies 0 <= #[trigger] (t / a) < ps.len() by {
        lemma_index_split(t, a, ps.len() as int);
    }
    assert forall|t1: int, t2: int|
        0 <= t1 < c.len() && 0 <= t2 < c.len() && t1 != t2 implies c[t1] != c[t2] by {
        lemma_index_split(t1, a, ps.len() as int);
        lemma_index_split(t2, a, ps.len() as int);
        if c[t1] == c[t2] {
            assert(ps[t1 / a] == ps[t2 / a]);
            assert(t1 / a == t2 / a);
            assert(letters[t1 % a] == letters[t2 % a]);
            assert(t1 % a == t2 % a);
        }
    }
    assert forall|i: int, j: int| 0 <= i < c.len() && 0 <= j < c[i].len() implies letters.contains(
        #[trigger] c[i][j],
    ) by {
        lemma_index_split(i, a, ps.len() as int);
        if j < l {
            assert(c[i][j] == c[i].subrange(0, l as int)[j]);
            assert(letters.contains(ps[i / a][j]));
        } else {
            assert(c[i][j] == letters[i % a]);
        }
    }
}

proof fn lemma_uniform_prefix_free(s: Seq<Seq<char>>, l: nat)
    requires
        uniform(s, l),
        s.no_duplicates(),
    ensures
        prefix_free(s),
        lengths_sorted(s),
{
    assert forall|i: int, j: int| 0 <= i < s.len() && 0 <= j < s.len() && i != j implies !is_prefix(
        #[trigger] s[i],
        #[trigger] s[j],
    ) by {
        if is_prefix(s[i], s[j]) {
            assert(s[j].subrange(0, s[i].len() as int) =~= s[j]);
        }
    }
}

/// What holds of the codes chosen from a level of distinct candidates of one
/// length `l`: `needed` of them, prefix-free, no shorter than `l`, in
/// non-decreasing length, made of the letters.
pub proof fn lemma_layout(letters: Seq<char>, needed: nat, level: Seq<Seq<char>>, l: nat)
    requires
        letters.len() >= 2,
        letters.no_duplicates(),
        level.len() >= 1,
        level.no_duplicates(),
        uniform(level, l),
        drawn_from(level, letters),
    ensures
        layout(letters, needed, level).len() == needed,
        prefix_free(layout(letters, needed, level)),
        lengths_sorted(layout(letters, needed, level)),
        forall|i: int|
            0 <= i < needed ==> (#[trigger] layout(letters, needed, level)[i]).len() >= l,
        drawn_from(layout(letters, needed, level), letters),
    decreases (if needed > level.len() { needed - level.len() } else { 0int }),
{
    let r = layout(letters, needed, level);
    let a = letters.len();
    if needed <= level.len() {
        let s = level.take(needed as int);
        assert(uniform(s, l));
        lemma_uniform_prefix_free(s, l);
        assert forall|i: int, j: int| 0 <= i < s.len() && 0 <= j < s[i].len() implies letters.contains(
            #[trigger] s[i][j],
        ) by {
            assert(s[i] == level[i]);
        }
    } else {
        let len = level.len();
        let k = roots_needed(a, needed, len);
        lemma_roots(needed - len, a - 1, len as int);
        if k <= len {
            let keep = (len - k) as nat;
            let ps = level.skip(keep as int);
            let c = children(ps, letters);
            assert(needed - keep <= k * a) by (nonlinear_arith)
                requires
                    k * (a - 1) >= needed - len,
                    k * ((a - 1) + 1) == k * (a - 1) + k,
                    keep == len - k,
            ;
            assert(ps.no_duplicates());
            assert(uniform(ps, l));
            assert(drawn_from(ps, letters)) by {
                assert forall|i: int, j: int| 0 <= i < ps.len() && 0 <= j < ps[i].len() implies letters.contains(
                    #[trigger] ps[i][j],
                ) by {
                    assert(ps[i] == level[i + keep]);
                }
            }
            lemma_children(ps, letters, l);
            let front = level.take(keep as int);
            let back = c.take(needed - keep);
            assert(r == front + back);
            assert(r.len() == needed);
            assert forall|i: int| 0 <= i < r.len() implies (#[trigger] r[i]).len() == if i < keep {
                l
            } else {
                l + 1
            } by {
                if i >= keep {
                    assert(r[i] == c[i - keep]);
                }
            }
            assert forall|i: int, j: int|
                0 <= i < r.len() && 0 <= j < r.len() && i != j implies !is_prefix(
                #[trigger] r[i],
                #[trigger] r[j],
            ) by {
                if i < keep && j < keep {
                    assert(r[i] == level[i] && r[j] == level[j]);
                    if is_prefix(r[i], r[j]) {
                        assert(r[j].subrange(0, r[i].len() as int) =~= r[j]);
                    }
                } else if i >= keep && j >= keep {
                    assert(r[i] == c[i - keep] && r[j] == c[j - keep]);
                    if is_prefix(r[i], r[j]) {
                        assert(r[j].subrange(0, r[i].len() as int) =~= r[j]);
                    }
                } else if i < keep {
                    let t = j - keep;
                    assert(r[j] == c[t]);
                    assert(c[t].subrange(0, l as int) == ps[t / a as int]);
                    assert(ps[t / a as int] == level[keep + t / a as int]);
                    assert(r[i] == level[i]);
                }
            }
            assert forall|i: int, j: int| 0 <= i < r.len() && 0 <= j < r[i].len() implies letters.contains(
                #[trigger] r[i][j],
            ) by {
                if i < keep {
                    assert(r[i] == level[i]);
                } else {
                    assert(r[i] == c[i - keep]);
                }
            }
        } else {
            lemma_children_grow(len, a);
            lemma_children(level, letters, l);
            lemma_layout(letters, needed, children(level, letters), l + 1);
        }
    }
}


/// For an alphabet of distinct letters and a number `n` of matches that it can
/// label (two letters or more, or no more matches than letters), there are
/// exactly `n` hint codes; they are prefix-free, hence pairwise distinct; they
/// are made of the alphabet's letters; and a later code is never shorter than
/// an earlier one.
pub proof fn hint_codes_prefix_free(letters: Seq<char>, n: nat)
    requires
        letters.no_duplicates(),
        letters.len() >= 2 || n <= letters.len(),
    ensures
        hint_codes(letters, n).len() == n,
        prefix_free(hint_codes(letters, n)),
        hint_codes(letters, n).no_duplicates(),
        drawn_from(hint_codes(letters, n), letters),
        lengths_sorted(hint_codes(letters, n)),
{
    let s = singles(letters);
    let r = hint_codes(letters, n);
    assert(uniform(s, 1));
    assert(s.no_duplicates()) by {
        assert forall|i: int, j: int| 0 <= i < s.len() && 0 <= j < s.len() && i != j implies s[i]
            != s[j] by {
            assert(s[i][0] == letters[i] && s[j][0] == letters[j]);
        }
    }
    assert(drawn_from(s, letters)) by {
        assert forall|i: int, j: int| 0 <= i < s.len() && 0 <= j < s[i].len() implies letters.contains(
            #[trigger] s[i][j],
        ) by {
            assert(s[i][j] == letters[i]);
        }
    }
    if n <= letters.len() {
        let t = s.take(n as int);
        assert(uniform(t, 1));
        lemma_uniform_prefix_free(t, 1);
        assert forall|i: int, j: int| 0 <= i < t.len() && 0 <= j < t[i].len() implies letters.contains(
            #[trigger] t[i][j],
        ) by {
            assert(t[i] == s[i]);
        }
    } else {
        lemma_layout(letters, n, s, 1);
    }
    assert forall|i: int, j: int| 0 <= i < r.len() && 0 <= j < r.len() && i != j implies r[i]
        != r[j] by {
        if r[i] == r[j] {
            assert(r[j].subrange(0, r[i].len() as int) =~= r[j]);
            assert(is_prefix(r[i], r[j]));
        }
    }
}

/// When there are no more matches than letters, the codes are the first `n`
/// letters, one each, in alphabet order.
pub proof fn few_matches_get_single_letters(letters: Seq<char>, n: nat)
    requires
        n <= letters.len(),
    ensures
        hint_codes(letters, n) == Seq::new(n, |i: int| seq![letters[i]]),
{
    assert(hint_codes(letters, n) =~= Seq::new(n, |i: int| seq![letters[i]]));
}

pub(crate) proof fn lemma_codes_view_push(s: Seq<Vec<char>>, c: Vec<char>)
    ensures
        codes_view(s.push(c)) == codes_view(s).push(c@),
{
    assert(codes_view(s.push(c)) =~= codes_view(s).push(c@));
}

/// A fresh copy of a code.
pub(crate) fn copy_code(c: &Vec<char>) -> (r: Vec<char>)
    ensures
        r@ == c@,
{
    let mut r: Vec<char> = Vec::new();
    let mut i: usize = 0;
    while i < c.len()
        invariant
            i <= c@.len(),
            r@ == c@.take(i as int),
        decreases c@.len() - i,
    {
        r.push(c[i]);
        i = i + 1;
        proof {
            assert(r@ =~= c@.take(i as int));
        }
    }
    proof {
        assert(r@ =~= c@);
    }
    r
}

/// Whether some letter occurs twice.
fn has_repeat(letters: &Vec<char>) -> (r: bool)
    ensures
        r == !letters@.no_duplicates(),
{
    let n = letters.len();
    let mut i: usize = 0;
    while i < n
        invariant
            n == letters@.len(),
            i <= n,
            forall|p: int, q: int| 0 <= p < i && p < q < n ==> letters@[p] != letters@[q],
        decreases n - i,
    {
        let mut j: usize = i + 1;
        while j < n
            invariant
                n == letters@.len(),
                i < n,
                i + 1 <= j <= n,
                forall|p: int, q: int| 0 <= p < i && p < q < n ==> letters@[p] != letters@[q],
                forall|q: int| i < q < j ==> letters@[i as int] != letters@[q],
            decreases n - j,
        {
            if letters[i] == letters[j] {
                return true;
            }
            j = j + 1;
        }
        i = i + 1;
    }
    false
}

/// The codes `level[..upto]`, then the first `count` codes one letter longer
/// grown from `level[upto..]`.
fn grow(level: &Vec<Vec<char>>, letters: &Vec<char>, upto: usize, count: usize) -> (r: Vec<Vec<char>>)
    requires
        letters@.len() >= 1,
        upto <= level@.len(),
        count <= (level@.len() - upto) * letters@.len(),
    ensures
        codes_view(r@) == codes_view(level@).take(upto as int) + children(
            codes_view(level@).skip(upto as int),
            letters@,
        ).take(count as int),
{
    let ghost lv = codes_view(level@);
    let ghost c = children(lv.skip(upto as int), letters@);
    let a = letters.len();
    let mut r: Vec<Vec<char>> = Vec::new();
    let mut i: usize = 0;
    while i < upto
        invariant
            upto <= level@.len(),
            lv == codes_view(level@),
            i <= upto,
            codes_view(r@) == lv.take(i as int),
        decreases upto - i,
    {
        let ghost before = r@;
        let code = copy_code(&level[i]);
        r.push(code);
        i = i + 1;
        proof {
            lemma_codes_view_push(before, code);
            assert(codes_view(r@) =~= lv.take(i as int));
        }
    }
    let mut t: usize = 0;
    while t < count
        invariant
            a == letters@.len(),
            a >= 1,
            upto <= level@.len(),
            count <= (level@.len() - upto) * a,
            lv == codes_view(level@),
            c == children(lv.skip(upto as int), letters@),
            t <= count,
            codes_view(r@) == lv.take(upto as int) + c.take(t as int),
        decreases count - t,
    {
        proof {
            lemma_index_split(t as int, a as int, (level@.len() - upto) as int);
            assert(upto + t / a < level@.len());
        }
        let ghost before = r@;
        let total = level.len();
        let parent = t / a;
        assert(upto + parent < total);
        let mut code = copy_code(&level[upto + parent]);
        code.push(letters[t % a]);
        r.push(code);
        proof {
            lemma_codes_view_push(before, code);
            assert(code@ =~= c[t as int]);
            assert(codes_view(r@) =~= lv.take(upto as int) + c.take(t + 1));
        }
        t = t + 1;
    }
    r
}

/// Hint codes for `n` matches over the letters of `alphabet`, in the order in
/// which they go to the matches.
pub fn hints(alphabet: &Vec<char>, n: usize) -> (r: Result<Vec<Vec<char>>, HintError>)
    ensures
        alphabet@.len() == 0 ==> r == Err::<Vec<Vec<char>>, HintError>(HintError::EmptyAlphabet),
        alphabet@.len() > 0 && !alphabet@.no_duplicates() ==> r == Err::<
            Vec<Vec<char>>,
            HintError,
        >(HintError::RepeatedLetter),
        alphabet@.len() == 1 && n > 1 ==> r == Err::<Vec<Vec<char>>, HintError>(
            HintError::TooFewLetters,
        ),
        alphabet@.len() > 0 && alphabet@.no_duplicates() && (alphabet@.len() >= 2 || n <= 1)
            ==> r is Ok && codes_view(r->Ok_0@) == hint_codes(alphabet@, n as nat),
{
    let a = alphabet.len();
    if a == 0 {
        return Err(HintError::EmptyAlphabet);
    }
    if has_repeat(alphabet) {
        return Err(HintError::RepeatedLetter);
    }
    if a == 1 && n > 1 {
        return Err(HintError::TooFewLetters);
    }
    let ghost letters = alphabet@;
    let mut level: Vec<Vec<char>> = Vec::new();
    let mut i: usize = 0;
    while i < a
        invariant
            a == letters.len(),
            letters == alphabet@,
            letters.no_duplicates(),
            i <= a,
            codes_view(level@) == singles(letters).take(i as int),
        decreases a - i,
    {
        let mut code: Vec<char> = Vec::new();
        code.push(alphabet[i]);
        let ghost before = level@;
        level.push(code);
        i = i + 1;
        proof {
            lemma_codes_view_push(before, code);
            assert(code@ =~= seq![letters[i - 1]]);
            assert(codes_view(level@) =~= singles(letters).take(i as int));
        }
    }
    proof {
        assert(codes_view(level@) =~= singles(letters));
    }
    loop
        invariant
            a == letters.len(),
            letters == alphabet@,
            a >= 2 || n <= 1,
            a >= 1,
            letters.no_duplicates(),
            level@.len() >= 1,
            layout(letters, n as nat, codes_view(level@)) == hint_codes(letters, n as nat),
        decreases (if n > level@.len() { n - level@.len() } else { 0int }),
    {
        let len = level.len();
        if n <= len {
            let r = grow(&level, alphabet, n, 0);
            proof {
                assert(codes_view(r@) =~= codes_view(level@).take(n as int));
            }
            return Ok(r);
        }
        let gap = n - len;
        let d = a - 1;
        let k = gap / d + if gap % d == 0 { 0 } else { 1 };
        proof {
            lemma_roots(gap as int, d as int, len as int);
            assert(k == roots_needed(a as nat, n as nat, len as nat));
        }
        if k <= len {
            let keep = len - k;
            proof {
                assert(n - keep <= k * a) by (nonlinear_arith)
                    requires
                        k * d >= gap,
                        k * (d + 1) == k * d + k,
                        keep == len - k,
                        gap == n - len,
                        d == a - 1,
                ;
            }
            let r = grow(&level, alphabet, keep, n - keep);
            return Ok(r);
        }
        proof {
            lemma_children_grow(len as nat, a as nat);
            assert(len * a < n) by (nonlinear_arith)
                requires
                    gap > len * d,
                    gap == n - len,
                    d == a - 1,
            ;
        }
        let next = grow(&level, alphabet, 0, len * a);
        proof {
            assert(codes_view(level@).skip(0) =~= codes_view(level@));
            assert(codes_view(next@) =~= children(codes_view(level@), letters));
        }
        level = next;
    }
}

} // verus!
