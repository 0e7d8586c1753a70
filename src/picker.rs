use vstd::prelude::*;
use crate::hints::{copy_code, codes_view, hint_codes, hints, is_prefix, HintError, few_matches_get_single_letters, hint_codes_prefix_free};

verus! {

/// A located substring of interest: its logical line, its column counted in
/// characters, its text, and the hint code it was given, if any.
pub struct Match {
    pub line: usize,
    pub column: usize,
    pub text: Vec<char>,
    pub hint: Option<Vec<char>>,
}

/// The hint's text, when the match has one.
pub open spec fn hint_of(m: Match) -> Option<Seq<char>> {
    match m.hint {
        Some(h) => Some(h@),
        None => None,
    }
}

/// The length of a match's hint, zero when it has none.
pub open spec fn hint_len(m: Match) -> nat {
    match m.hint {
        Some(h) => h@.len(),
        None => 0,
    }
}

/// The length of the longest hint among `ms`.
pub open spec fn longest_hint(ms: Seq<Match>) -> nat
    decreases ms.len(),
{
    if ms.len() == 0 {
        0
    } else {
        let rest = longest_hint(ms.drop_last());
        let last = hint_len(ms.last());
        if last > rest {
            last
        } else {
            rest
        }
    }
}

/// No hint of `ms` is a prefix of the hint of another match.
pub open spec fn hints_prefix_free(ms: Seq<Match>) -> bool {
    forall|i: int, j: int|
        0 <= i < ms.len() && 0 <= j < ms.len() && i != j && (#[trigger] hint_of(ms[i])) is Some && (
        #[trigger] hint_of(ms[j])) is Some ==> !is_prefix(hint_of(ms[i])->0, hint_of(ms[j])->0)
}

proof fn lemma_longest_hint(ms: Seq<Match>, i: int)
    requires
        0 <= i < ms.len(),
    ensures
        hint_len(ms[i]) <= longest_hint(ms),
    decreases ms.len(),
{
    if i < ms.len() - 1 {
        lemma_longest_hint(ms.drop_last(), i);
    }
}

/// While the letters of a hint are typed one by one, no part of it shorter
/// than the whole is the hint of a match, and each part is shorter than the
/// longest hint, so the selection waits; the whole hint then names its own
/// match and no earlier one.
pub proof fn typing_a_hint_waits_then_selects(ms: Seq<Match>, i: int, k: int)
    requires
        hints_prefix_free(ms),
        0 <= i < ms.len(),
        hint_of(ms[i]) is Some,
        0 <= k < hint_len(ms[i]),
    ensures
        forall|j: int| 0 <= j < ms.len() ==> !hinted(ms, j, hint_of(ms[i])->0.take(k)),
        k < longest_hint(ms),
        first_hinted(ms, i, hint_of(ms[i])->0),
{
    let c = hint_of(ms[i])->0;
    lemma_longest_hint(ms, i);
    assert forall|j: int| 0 <= j < ms.len() implies !hinted(ms, j, c.take(k)) by {
        if hinted(ms, j, c.take(k)) && j != i {
            assert(c.subrange(0, k) =~= c.take(k));
            assert(is_prefix(hint_of(ms[j])->0, c));
        }
    }
    assert forall|j: int| 0 <= j < i implies !hinted(ms, j, c) by {
        if hinted(ms, j, c) {
            assert(c.subrange(0, c.len() as int) =~= c);
            assert(is_prefix(hint_of(ms[j])->0, c));
        }
    }
}

/// At which edge of a match its hint is drawn.
#[derive(Debug, Clone, Copy, PartialEq, Eq, Structural)]
pub enum HintPosition {
    Left,
    Right,
}

/// A key event, as the input source reports it.
#[derive(Debug, Clone, Copy, PartialEq, Eq, Structural)]
pub enum Event {
    Escape,
    Confirm,
    Prev,
    Next,
    Char(char),
}

/// Where the selection stands after an event.
#[derive(Debug)]
pub enum Outcome {
    /// No decision yet: draw again and wait for the next event.
    Waiting,
    /// A match was chosen: its text, and whether the alternate action is wanted.
    Selected(Vec<char>, bool),
    /// The selection ended without a choice.
    Cancelled,
}

/// The selection over a fixed list of matches: a cursor into the list and the
/// hint letters typed so far.
pub struct Picker {
    pub matches: Vec<Match>,
    pub skip: Option<usize>,
    pub reverse: bool,
    pub position: HintPosition,
    pub typed: Vec<char>,
    pub longest: usize,
}

impl Picker {
    /// The cursor points into the list, and `longest` is the longest hint.
    pub open spec fn wf(&self) -> bool {
        &&& (self.skip matches Some(i) ==> i < self.matches@.len())
        &&& self.longest == longest_hint(self.matches@)
    }

    /// A selection over `matches`, with no cursor yet and nothing typed.
    pub fn new(matches: Vec<Match>, reverse: bool, position: HintPosition) -> (r: Picker)
        ensures
            r.wf(),
            r.matches@ == matches@,
            r.skip is None,
            r.reverse == reverse,
            r.position == position,
            r.typed@.len() == 0,
    {
        let mut longest: usize = 0;
        let mut i: usize = 0;
        while i < matches.len()
            invariant
                i <= matches@.len(),
                longest == longest_hint(matches@.take(i as int)),
            decreases matches@.len() - i,
        {
            proof {
                assert(matches@.take(i + 1).drop_last() =~= matches@.take(i as int));
            }
            let len = match &matches[i].hint {
                Some(h) => h.len(),
                None => 0,
            };
            if len > longest {
                longest = len;
            }
            i = i + 1;
        }
        proof {
            assert(matches@.take(i as int) =~= matches@);
        }
        Picker { matches, skip: None, reverse, position, typed: Vec::new(), longest }
    }

    /// Where the cursor starts: the first match under `reverse`, else the last.
    pub open spec fn start(&self) -> Option<usize> {
        if self.matches@.len() == 0 {
            None
        } else if self.reverse {
            Some(0)
        } else {
            Some((self.matches@.len() - 1) as usize)
        }
    }

    /// The cursor once `init` has run: where it stands, else its start.
    pub open spec fn placed(&self) -> Option<usize> {
        if self.skip is Some {
            self.skip
        } else {
            self.start()
        }
    }

    /// Places the cursor at its start, unless it already stands somewhere.
    pub fn init(&mut self)
        requires
            old(self).wf(),
        ensures
            final(self).wf(),
            final(self).skip == if old(self).skip is Some {
                old(self).skip
            } else {
                old(self).start()
            },
            final(self).matches == old(self).matches,
            final(self).typed == old(self).typed,
            final(self).reverse == old(self).reverse,
            final(self).position == old(self).position,
    {
        if self.skip.is_none() && self.matches.len() > 0 {
            if self.reverse {
                self.skip = Some(0);
            } else {
                self.skip = Some(self.matches.len() - 1);
            }
        }
    }

    /// Moves the cursor one match back, staying on the first match; with no
    /// cursor yet, places it at its start.
    pub fn prev(&mut self)
        requires
            old(self).wf(),
        ensures
            final(self).wf(),
            final(self).skip == match old(self).skip {
                Some(i) => Some(if i > 0 { (i - 1) as usize } else { i }),
                None => old(self).start(),
            },
            final(self).matches == old(self).matches,
            final(self).typed == old(self).typed,
            final(self).reverse == old(self).reverse,
            final(self).position == old(self).position,
    {
        match self.skip {
            Some(i) => {
                if i > 0 {
                    self.skip = Some(i - 1);
                }
            },
            None => self.init(),
        }
    }

    /// Moves the cursor one match forward, staying on the last match; with no
    /// cursor yet, places it at its start.
    pub fn next(&mut self)
        requires
            old(self).wf(),
        ensures
            final(self).wf(),
            final(self).skip == match old(self).skip {
                Some(i) => Some(if i + 1 < old(self).matches@.len() { (i + 1) as usize } else { i }),
                None => old(self).start(),
            },
            final(self).matches == old(self).matches,
            final(self).typed == old(self).typed,
            final(self).reverse == old(self).reverse,
            final(self).position == old(self).position,
    {
        match self.skip {
            Some(i) => {
                if i < self.matches.len() - 1 {
                    self.skip = Some(i + 1);
                }
            },
            None => self.init(),
        }
    }
}

/// Case folding of one character, as std defines it; it may give more than one
/// character.
pub uninterp spec fn lower_of(c: char) -> Seq<char>;

/// Relies on `char::to_lowercase`: the characters of the lowercase mapping of
/// `c`, which depends on `c` alone.
#[verifier::external_body]
fn lowercase(c: char) -> (r: Vec<char>)
    ensures
        r@ == lower_of(c),
{
    c.to_lowercase().collect()
}

/// The match at `i` carries the hint `code`.
pub open spec fn hinted(ms: Seq<Match>, i: int, code: Seq<char>) -> bool {
    hint_of(ms[i]) == Some(code)
}

/// `i` is the first match that carries the hint `code`.
pub open spec fn first_hinted(ms: Seq<Match>, i: int, code: Seq<char>) -> bool {
    &&& 0 <= i < ms.len()
    &&& hinted(ms, i, code)
    &&& forall|j: int| 0 <= j < i ==> !hinted(ms, j, code)
}

fn same_code(a: &Vec<char>, b: &Vec<char>) -> (r: bool)
    ensures
        r == (a@ == b@),
{
    if a.len() != b.len() {
        return false;
    }
    let mut i: usize = 0;
    while i < a.len()
        invariant
            a@.len() == b@.len(),
            i <= a@.len(),
            a@.take(i as int) == b@.take(i as int),
        decreases a@.len() - i,
    {
        if a[i] != b[i] {
            assert(a@[i as int] != b@[i as int]);
            return false;
        }
        i = i + 1;
        proof {
            assert(a@.take(i as int) =~= a@.take(i - 1).push(a@[i - 1]));
            assert(b@.take(i as int) =~= b@.take(i - 1).push(b@[i - 1]));
        }
    }
    proof {
        assert(a@ =~= a@.take(i as int));
        assert(b@ =~= b@.take(i as int));
    }
    true
}

impl Picker {
    /// Adds the already lowered form `lowered` of the typed character `ch` to
    /// the typed letters. When they now spell a hint, the first match with
    /// that hint is selected, with the alternate action when `ch` is not its
    /// own lowercase form; when they are as long as the longest hint without
    /// spelling one, the selection is cancelled; otherwise it waits.
    pub fn type_lowered(&mut self, ch: char, lowered: &Vec<char>) -> (r: Outcome)
        requires
            old(self).wf(),
        ensures
            final(self).wf(),
            final(self).typed@ == old(self).typed@ + lowered@,
            final(self).matches == old(self).matches,
            final(self).skip == old(self).skip,
            final(self).reverse == old(self).reverse,
            final(self).position == old(self).position,
            match r {
                Outcome::Selected(text, alternate) => exists|i: int|
                    first_hinted(old(self).matches@, i, final(self).typed@)
                        && text@ == old(self).matches@[i].text@
                        && alternate == (lowered@ != seq![ch]),
                Outcome::Cancelled => (forall|i: int|
                    0 <= i < old(self).matches@.len() ==> !hinted(
                        old(self).matches@,
                        i,
                        final(self).typed@,
                    )) && final(self).typed@.len() >= old(self).longest,
                Outcome::Waiting => (forall|i: int|
                    0 <= i < old(self).matches@.len() ==> !hinted(
                        old(self).matches@,
                        i,
                        final(self).typed@,
                    )) && final(self).typed@.len() < old(self).longest,
            },
    {
        let mut k: usize = 0;
        while k < lowered.len()
            invariant
                k <= lowered@.len(),
                self.typed@ == old(self).typed@ + lowered@.take(k as int),
                self.matches == old(self).matches,
                self.skip == old(self).skip,
                self.reverse == old(self).reverse,
                self.position == old(self).position,
                self.longest == old(self).longest,
            decreases lowered@.len() - k,
        {
            self.typed.push(lowered[k]);
            k = k + 1;
            proof {
                assert(self.typed@ =~= old(self).typed@ + lowered@.take(k as int));
            }
        }
        proof {
            assert(lowered@.take(k as int) =~= lowered@);
        }
        let alternate = !(lowered.len() == 1 && lowered[0] == ch);
        proof {
            if lowered@.len() == 1 && lowered@[0] == ch {
                assert(lowered@ =~= seq![ch]);
            }
        }
        let mut i: usize = 0;
        while i < self.matches.len()
            invariant
                self.wf(),
                self.typed@ == old(self).typed@ + lowered@,
                self.matches == old(self).matches,
                self.skip == old(self).skip,
                self.reverse == old(self).reverse,
                self.position == old(self).position,
                alternate == (lowered@ != seq![ch]),
                i <= self.matches@.len(),
                forall|j: int| 0 <= j < i ==> !hinted(self.matches@, j, self.typed@),
            decreases self.matches@.len() - i,
        {
            let found = match &self.matches[i].hint {
                Some(h) => same_code(h, &self.typed),
                None => false,
            };
            proof {
                assert(found == hinted(self.matches@, i as int, self.typed@));
            }
            if found {
                proof {
                    assert(first_hinted(self.matches@, i as int, self.typed@));
                }
                let text = copy_code(&self.matches[i].text);
                return Outcome::Selected(text, alternate);
            }
            i = i + 1;
        }
        if self.typed.len() >= self.longest {
            Outcome::Cancelled
        } else {
            Outcome::Waiting
        }
    }

    /// Handles one key event, once the cursor is placed at its start if it
    /// was not yet (see `init`): Escape cancels; Confirm selects the match under
    /// the cursor, when there is one, without the alternate action; Prev and
    /// Next move the cursor; a character is lowered and typed.
    pub fn handle(&mut self, event: Event) -> (r: Outcome)
        requires
            old(self).wf(),
        ensures
            final(self).wf(),
            final(self).matches == old(self).matches,
            final(self).reverse == old(self).reverse,
            final(self).position == old(self).position,
            !(event is Char) ==> final(self).typed == old(self).typed,
            event == Event::Escape ==> r is Cancelled && final(self).skip == old(self).placed(),
            event == Event::Confirm ==> final(self).skip == old(self).placed() && match old(self).placed() {
                Some(i) => r matches Outcome::Selected(text, alternate) && text@
                    == old(self).matches@[i as int].text@ && !alternate,
                None => r is Waiting,
            },
            event == Event::Prev ==> r is Waiting && final(self).skip == match old(self).placed() {
                Some(i) => Some(if i > 0 { (i - 1) as usize } else { i }),
                None => None,
            },
            event == Event::Next ==> r is Waiting && final(self).skip == match old(self).placed() {
                Some(i) => Some(if i + 1 < old(self).matches@.len() { (i + 1) as usize } else { i }),
                None => None,
            },
            old(self).longest == 0 && event is Char ==> r is Waiting && final(self).typed
                == old(self).typed && final(self).skip == old(self).placed(),
            (event matches Event::Char(ch) ==> old(self).longest == 0 || (final(self).typed@ == old(self).typed@ + lower_of(ch)
                && final(self).skip == old(self).placed()
                && match r {
                Outcome::Selected(text, alternate) => exists|i: int|
                    first_hinted(old(self).matches@, i, final(self).typed@)
                        && text@ == old(self).matches@[i].text@
                        && alternate == (lower_of(ch) != seq![ch]),
                Outcome::Cancelled => (forall|i: int|
                    0 <= i < old(self).matches@.len() ==> !hinted(
                        old(self).matches@,
                        i,
                        final(self).typed@,
                    )) && final(self).typed@.len() >= old(self).longest,
                Outcome::Waiting => (forall|i: int|
                    0 <= i < old(self).matches@.len() ==> !hinted(
                        old(self).matches@,
                        i,
                        final(self).typed@,
                    )) && final(self).typed@.len() < old(self).longest,
            })),
    {
        self.init();
        match event {
            Event::Escape => Outcome::Cancelled,
            Event::Confirm => match self.skip {
                Some(i) => Outcome::Selected(copy_code(&self.matches[i].text), false),
                None => Outcome::Waiting,
            },
            Event::Prev => {
                self.prev();
                Outcome::Waiting
            },
            Event::Next => {
                self.next();
                Outcome::Waiting
            },
            Event::Char(ch) => {
                if self.longest == 0 {
                    return Outcome::Waiting;
                }
                let lowered = lowercase(ch);
                self.type_lowered(ch, &lowered)
            },
        }
    }
}


/// The position in the list of the `p`-th match visited: front to back, or
/// back to front under `reverse`.
pub open spec fn walk(len: nat, reverse: bool, p: int) -> int {
    if reverse {
        len - 1 - p
    } else {
        p
    }
}

/// The texts of the matches.
pub open spec fn texts(ms: Seq<Match>) -> Seq<Seq<char>> {
    ms.map_values(|m: Match| m.text@)
}

/// No match visited before the `p`-th has the same text.
pub open spec fn first_of_text(t: Seq<Seq<char>>, reverse: bool, p: int) -> bool {
    forall|q: int| 0 <= q < p ==> t[walk(t.len(), reverse, q)] != t[walk(t.len(), reverse, p)]
}

/// The `p`-th match visited gets a hint: always, or under `unique` only when
/// its text was not seen before.
pub open spec fn eligible(t: Seq<Seq<char>>, unique: bool, reverse: bool, p: int) -> bool {
    !unique || first_of_text(t, reverse, p)
}

/// How many of the first `p` matches visited get a hint.
pub open spec fn eligible_before(t: Seq<Seq<char>>, unique: bool, reverse: bool, p: nat) -> nat
    decreases p,
{
    if p == 0 {
        0
    } else {
        eligible_before(t, unique, reverse, (p - 1) as nat) + if eligible(
            t,
            unique,
            reverse,
            p - 1,
        ) {
            1nat
        } else {
            0nat
        }
    }
}

proof fn lemma_eligible_before_grows(t: Seq<Seq<char>>, unique: bool, reverse: bool, p: nat, q: nat)
    requires
        p < q,
    ensures
        eligible_before(t, unique, reverse, p) + (if eligible(t, unique, reverse, p as int) {
            1nat
        } else {
            0nat
        }) <= eligible_before(t, unique, reverse, q),
    decreases q - p,
{
    if q > p + 1 {
        lemma_eligible_before_grows(t, unique, reverse, p, (q - 1) as nat);
    }
}

/// With `unique`, each match shares its text with exactly one match that gets
/// a hint, and that one is the first with this text in visiting order.
pub proof fn one_hint_per_text(t: Seq<Seq<char>>, reverse: bool, p: int)
    requires
        0 <= p < t.len(),
    ensures
        exists|q: int|
            0 <= q <= p && t[walk(t.len(), reverse, q)] == t[walk(t.len(), reverse, p)]
                && eligible(t, true, reverse, q) && forall|r: int|
                0 <= r < t.len() && eligible(t, true, reverse, r) && t[walk(t.len(), reverse, r)]
                    == t[walk(t.len(), reverse, p)] ==> r == q,
    decreases p,
{
    let w = t[walk(t.len(), reverse, p)];
    if first_of_text(t, reverse, p) {
        assert forall|r: int|
            0 <= r < t.len() && eligible(t, true, reverse, r) && t[walk(t.len(), reverse, r)]
                == w implies r == p by {
            if r < p {
                assert(t[walk(t.len(), reverse, r)] != w);
            } else if r > p {
                assert(t[walk(t.len(), reverse, p)] != t[walk(t.len(), reverse, r)]);
            }
        }
        assert(eligible(t, true, reverse, p));
    } else {
        let q0 = choose|q: int| 0 <= q < p && t[walk(t.len(), reverse, q)] == w;
        one_hint_per_text(t, reverse, q0);
    }
}

/// Of two matches that get a hint, the one visited later never gets a
/// shorter code: the codes that `assign_hints` hands out follow visiting
/// order, and their lengths never decrease along it.
pub proof fn later_matches_get_no_shorter_hints(
    t: Seq<Seq<char>>,
    unique: bool,
    reverse: bool,
    alphabet: Seq<char>,
    p: int,
    q: int,
)
    requires
        alphabet.no_duplicates(),
        alphabet.len() >= 2 || eligible_before(t, unique, reverse, t.len()) <= alphabet.len(),
        0 <= p < q < t.len(),
        eligible(t, unique, reverse, p),
        eligible(t, unique, reverse, q),
    ensures
        ({
            let codes = hint_codes(alphabet, eligible_before(t, unique, reverse, t.len()));
            let rp = eligible_before(t, unique, reverse, p as nat) as int;
            let rq = eligible_before(t, unique, reverse, q as nat) as int;
            &&& 0 <= rp < rq < codes.len()
            &&& codes[rp].len() <= codes[rq].len()
        }),
{
    let n = eligible_before(t, unique, reverse, t.len());
    hint_codes_prefix_free(alphabet, n);
    lemma_eligible_before_grows(t, unique, reverse, p as nat, q as nat);
    lemma_eligible_before_grows(t, unique, reverse, q as nat, t.len());
}

/// When no more matches get a hint than the alphabet has letters, the match
/// with rank `r` in visiting order gets the single letter `alphabet[r]`: in
/// alphabet order along the matches, or along them back to front under
/// `reverse`.
pub proof fn few_hints_are_single_letters(
    t: Seq<Seq<char>>,
    unique: bool,
    reverse: bool,
    alphabet: Seq<char>,
    p: int,
)
    requires
        eligible_before(t, unique, reverse, t.len()) <= alphabet.len(),
        0 <= p < t.len(),
        eligible(t, unique, reverse, p),
    ensures
        ({
            let r = eligible_before(t, unique, reverse, p as nat) as int;
            hint_codes(alphabet, eligible_before(t, unique, reverse, t.len()))[r] == seq![alphabet[r]]
        }),
{
    let n = eligible_before(t, unique, reverse, t.len());
    few_matches_get_single_letters(alphabet, n);
    lemma_eligible_before_grows(t, unique, reverse, p as nat, t.len());
}

proof fn lemma_assigned_prefix_free(
    out: Seq<Match>,
    t: Seq<Seq<char>>,
    unique: bool,
    reverse: bool,
    alphabet: Seq<char>,
)
    requires
        out.len() == t.len(),
        alphabet.no_duplicates(),
        alphabet.len() >= 2 || eligible_before(t, unique, reverse, t.len()) <= alphabet.len(),
        forall|p: int|
            0 <= p < t.len() ==> #[trigger] hint_of(out[walk(t.len(), reverse, p)]) == if eligible(
                t,
                unique,
                reverse,
                p,
            ) {
                Some(hint_codes(alphabet, eligible_before(t, unique, reverse, t.len()))[eligible_before(t, unique, reverse, p as nat) as int])
            } else {
                None
            },
    ensures
        hints_prefix_free(out),
{
    hint_codes_prefix_free(alphabet, eligible_before(t, unique, reverse, t.len()));
    let codes_seq = hint_codes(alphabet, eligible_before(t, unique, reverse, t.len()));
    assert forall|i: int, j: int|
        0 <= i < out.len() && 0 <= j < out.len() && i != j && (#[trigger] hint_of(out[i])) is Some && (
        #[trigger] hint_of(out[j])) is Some implies !is_prefix(hint_of(out[i])->0, hint_of(out[j])->0) by {
        let p = walk(t.len(), reverse, i);
        let q = walk(t.len(), reverse, j);
        assert(walk(t.len(), reverse, p) == i);
        assert(walk(t.len(), reverse, q) == j);
        assert(hint_of(out[walk(t.len(), reverse, p)]) is Some);
        assert(hint_of(out[walk(t.len(), reverse, q)]) is Some);
        let rp = eligible_before(t, unique, reverse, p as nat) as int;
        let rq = eligible_before(t, unique, reverse, q as nat) as int;
        if p < q {
            lemma_eligible_before_grows(t, unique, reverse, p as nat, q as nat);
            lemma_eligible_before_grows(t, unique, reverse, q as nat, t.len());
        } else {
            lemma_eligible_before_grows(t, unique, reverse, q as nat, p as nat);
            lemma_eligible_before_grows(t, unique, reverse, p as nat, t.len());
        }
        assert(rp != rq);
        assert(0 <= rp < codes_seq.len() && 0 <= rq < codes_seq.len());
        assert(!is_prefix(codes_seq[rp], codes_seq[rq]));
    }
}

/// Gives hints to `ms` over the letters of `alphabet`: the matches are visited
/// front to back, or back to front under `reverse`; under `unique` a match
/// whose text was already visited gets none; the others get the codes of
/// `hint_codes` in visiting order. Lines, columns and texts are kept.
pub fn assign_hints(ms: Vec<Match>, alphabet: &Vec<char>, reverse: bool, unique: bool) -> (r:
    Result<Vec<Match>, HintError>)
    ensures
        ({
            let n = eligible_before(texts(ms@), unique, reverse, ms@.len());
            &&& alphabet@.len() == 0 ==> r == Err::<Vec<Match>, HintError>(HintError::EmptyAlphabet)
            &&& alphabet@.len() > 0 && !alphabet@.no_duplicates() ==> r == Err::<
                Vec<Match>,
                HintError,
            >(HintError::RepeatedLetter)
            &&& alphabet@.len() == 1 && n > 1 ==> r == Err::<Vec<Match>, HintError>(
                HintError::TooFewLetters,
            )
            &&& alphabet@.len() > 0 && alphabet@.no_duplicates() && (alphabet@.len() >= 2 || n <= 1)
                ==> r is Ok
            &&& r matches Ok(out) ==> out@.len() == ms@.len() && forall|i: int|
                0 <= i < ms@.len() ==> (#[trigger] out@[i]).line == ms@[i].line && out@[i].column
                    == ms@[i].column && out@[i].text@ == ms@[i].text@
            &&& r matches Ok(out) ==> hints_prefix_free(out@)
            &&& r matches Ok(out) ==> forall|p: int|
                0 <= p < ms@.len() ==> #[trigger] hint_of(out@[walk(ms@.len(), reverse, p)]) == if eligible(
                    texts(ms@),
                    unique,
                    reverse,
                    p,
                ) {
                    Some(hint_codes(alphabet@, n)[eligible_before(texts(ms@), unique, reverse, p as nat) as int])
                } else {
                    None
                }
        }),
{
    let ghost t = texts(ms@);
    let n = ms.len();
    let mut flags: Vec<bool> = Vec::new();
    let mut ranks: Vec<usize> = Vec::new();
    let mut count: usize = 0;
    let mut p: usize = 0;
    while p < n
        invariant
            n == ms@.len(),
            t == texts(ms@),
            p <= n,
            count == eligible_before(t, unique, reverse, p as nat),
            count <= p,
            flags@.len() == p,
            ranks@.len() == p,
            forall|q: int| 0 <= q < p ==> flags@[q] == eligible(t, unique, reverse, q),
            forall|q: int| 0 <= q < p ==> ranks@[q] == eligible_before(t, unique, reverse, q as nat),
        decreases n - p,
    {
        let idx = if reverse { n - 1 - p } else { p };
        let mut fresh = true;
        let mut q: usize = 0;
        while q < p
            invariant
                n == ms@.len(),
                t == texts(ms@),
                p < n,
                q <= p,
                idx == walk(n as nat, reverse, p as int),
                fresh == forall|q2: int| 0 <= q2 < q ==> t[walk(n as nat, reverse, q2)] != t[idx as int],
            decreases p - q,
        {
            let other = if reverse { n - 1 - q } else { q };
            let same = same_code(&ms[other].text, &ms[idx].text);
            proof {
                assert(t[other as int] == ms@[other as int].text@);
                assert(t[idx as int] == ms@[idx as int].text@);
                assert(walk(n as nat, reverse, q as int) == other);
            }
            if same {
                fresh = false;
            }
            q = q + 1;
        }
        let ok = !unique || fresh;
        proof {
            assert(t.len() == n);
            assert(ok == eligible(t, unique, reverse, p as int));
            assert(eligible_before(t, unique, reverse, (p + 1) as nat) == eligible_before(
                t,
                unique,
                reverse,
                p as nat,
            ) + if ok {
                1nat
            } else {
                0nat
            });
        }
        flags.push(ok);
        ranks.push(count);
        if ok {
            count = count + 1;
        }
        p = p + 1;
    }
    let codes = match hints(alphabet, count) {
        Ok(c) => c,
        Err(e) => {
            return Err(e);
        },
    };
    proof {
        crate::hints::hint_codes_prefix_free(alphabet@, count as nat);
    }
    let mut out: Vec<Match> = Vec::new();
    let mut i: usize = 0;
    while i < n
        invariant
            n == ms@.len(),
            t == texts(ms@),
            count == eligible_before(t, unique, reverse, n as nat),
            codes_view(codes@) == hint_codes(alphabet@, count as nat),
            codes@.len() == count,
            flags@.len() == n,
            ranks@.len() == n,
            forall|q: int| 0 <= q < n ==> flags@[q] == eligible(t, unique, reverse, q),
            forall|q: int| 0 <= q < n ==> ranks@[q] == eligible_before(t, unique, reverse, q as nat),
            i <= n,
            out@.len() == i,
            forall|j: int|
                0 <= j < i ==> (#[trigger] out@[j]).line == ms@[j].line && out@[j].column
                    == ms@[j].column && out@[j].text@ == ms@[j].text@,
            forall|q: int|
                0 <= q < n && 0 <= walk(n as nat, reverse, q) < i ==> #[trigger] hint_of(
                    out@[walk(n as nat, reverse, q)],
                ) == if eligible(t, unique, reverse, q) {
                    Some(hint_codes(alphabet@, count as nat)[eligible_before(t, unique, reverse, q as nat) as int])
                } else {
                    None
                },
        decreases n - i,
    {
        let p = if reverse { n - 1 - i } else { i };
        assert(walk(n as nat, reverse, p as int) == i);
        let hint = if flags[p] {
            proof {
                lemma_eligible_before_grows(t, unique, reverse, p as nat, n as nat);
            }
            let r = ranks[p];
            Some(copy_code(&codes[r]))
        } else {
            None
        };
        let m = Match { line: ms[i].line, column: ms[i].column, text: copy_code(&ms[i].text), hint };
        out.push(m);
        proof {
            assert forall|q: int|
                0 <= q < n && 0 <= walk(n as nat, reverse, q) < i + 1 implies #[trigger] hint_of(
                    out@[walk(n as nat, reverse, q)],
                ) == if eligible(t, unique, reverse, q) {
                    Some(hint_codes(alphabet@, count as nat)[eligible_before(t, unique, reverse, q as nat) as int])
                } else {
                    None
                } by {
                if walk(n as nat, reverse, q) == i {
                    assert(q == p);
                }
            }
        }
        i = i + 1;
    }
    proof {
        assert forall|p: int| 0 <= p < n implies 0 <= #[trigger] walk(n as nat, reverse, p) < n by {}
        assert(t.len() == n);
        lemma_assigned_prefix_free(out@, t, unique, reverse, alphabet@);
    }
    Ok(out)
}

/// How a drawn span is to be coloured.
#[derive(Debug, Clone, Copy, PartialEq, Eq, Structural)]
pub enum Role {
    /// A match that is not under the cursor.
    Plain,
    /// The match under the cursor.
    Selected,
    /// A hint drawn over a match.
    Hint,
}

/// One span of text to draw at a row and a column, counted in characters.
pub struct Draw {
    pub row: usize,
    pub column: usize,
    pub text: Vec<char>,
    pub role: Role,
}

/// A span as (row, column, text, role).
pub open spec fn draw_view(d: Draw) -> (int, int, Seq<char>, Role) {
    (d.row as int, d.column as int, d.text@, d.role)
}

/// The column of a match's hint: the match's first column, or under `Right`
/// the column that ends the hint where the match ends (when the hint is no
/// longer than the match and that column can be counted).
pub open spec fn hint_column(m: Match, position: HintPosition) -> int {
    if position == HintPosition::Right && hint_len(m) <= m.text@.len() && m.column + m.text@.len()
        - hint_len(m) <= usize::MAX {
        m.column + m.text@.len() - hint_len(m)
    } else {
        m.column as int
    }
}

/// The spans of the match at `i`: its text, then its hint if it has one.
pub open spec fn spans_of(ms: Seq<Match>, skip: Option<usize>, position: HintPosition, i: int) -> Seq<
    (int, int, Seq<char>, Role),
> {
    let m = ms[i];
    let role = if skip == Some(i as usize) {
        Role::Selected
    } else {
        Role::Plain
    };
    let text = (m.line as int, m.column as int, m.text@, role);
    match m.hint {
        Some(h) => seq![text, (m.line as int, hint_column(m, position), h@, Role::Hint)],
        None => seq![text],
    }
}

/// The spans of the first `k` matches, in list order.
pub open spec fn frame(ms: Seq<Match>, skip: Option<usize>, position: HintPosition, k: nat) -> Seq<
    (int, int, Seq<char>, Role),
>
    decreases k,
{
    if k == 0 {
        seq![]
    } else {
        frame(ms, skip, position, (k - 1) as nat) + spans_of(ms, skip, position, k - 1)
    }
}

impl Picker {
    /// What to draw for the current state: every match, the one under the
    /// cursor in its own role, each followed by its hint.
    pub fn present(&self) -> (r: Vec<Draw>)
        requires
            self.wf(),
        ensures
            r@.map_values(|d: Draw| draw_view(d)) == frame(
                self.matches@,
                self.skip,
                self.position,
                self.matches@.len(),
            ),
    {
        let mut r: Vec<Draw> = Vec::new();
        let mut i: usize = 0;
        while i < self.matches.len()
            invariant
                i <= self.matches@.len(),
                r@.map_values(|d: Draw| draw_view(d)) == frame(
                    self.matches@,
                    self.skip,
                    self.position,
                    i as nat,
                ),
            decreases self.matches@.len() - i,
        {
            let m = &self.matches[i];
            let role = match self.skip {
                Some(s) => if s == i {
                    Role::Selected
                } else {
                    Role::Plain
                },
                None => Role::Plain,
            };
            let ghost before = r@;
            r.push(Draw { row: m.line, column: m.column, text: copy_code(&m.text), role });
            match &m.hint {
                Some(h) => {
                    let column = if self.position == HintPosition::Right && h.len() <= m.text.len()
                        && m.text.len() - h.len() <= usize::MAX - m.column {
                        m.column + (m.text.len() - h.len())
                    } else {
                        m.column
                    };
                    r.push(Draw { row: m.line, column, text: copy_code(h), role: Role::Hint });
                },
                None => {},
            }
            proof {
                let f = |d: Draw| draw_view(d);
                assert(r@.map_values(f) =~= before.map_values(f) + spans_of(
                    self.matches@,
                    self.skip,
                    self.position,
                    i as int,
                ));
            }
            i = i + 1;
        }
        r
    }
}

} // verus!
