//! The tokenizer: maximal runs of alphanumeric characters, in lowercase.

use vstd::prelude::*;

verus! {

/// Whether `c` is alphanumeric: a letter or a digit of any script, as the
/// Unicode tables of the standard library classify it.
pub uninterp spec fn alphanumeric(c: char) -> bool;

/// The lowercase form of `text`, as the Unicode tables of the standard
/// library define it.  One character may become several.
pub uninterp spec fn lowercase(text: Seq<char>) -> Seq<char>;

/// `char::is_alphanumeric` of the standard library.  Its result depends on
/// the character alone; the contract gives that result its name and claims
/// nothing else of it.
pub assume_specification[ char::is_alphanumeric ](c: char) -> (r: bool)
    ensures
        r == alphanumeric(c),
;

/// `str::to_lowercase` of the standard library.  Its result depends on the
/// text alone; the contract gives that result its name and claims nothing
/// else of it.
pub assume_specification[ str::to_lowercase ](text: &str) -> (r: String)
    ensures
        r@ == lowercase(text@),
;

/// `String::push` of the standard library: the character is appended, and
/// what the string held before stays in front of it.
pub assume_specification[ String::push ](text: &mut String, c: char)
    ensures
        final(text)@ == old(text)@.push(c),
;

/// The first position at or after `from` whose mark is `wanted`, or the
/// length of `marks` where there is none.
pub open spec fn scan(marks: Seq<bool>, from: int, wanted: bool) -> int
    decreases marks.len() - from,
{
    if from >= marks.len() {
        marks.len() as int
    } else if 0 <= from && marks[from] == wanted {
        from
    } else {
        scan(marks, from + 1, wanted)
    }
}

/// `[start, end)` is a run: a stretch of set marks, not empty, that cannot be
/// made longer on either side.
pub open spec fn is_run(marks: Seq<bool>, start: int, end: int) -> bool {
    &&& 0 <= start < end <= marks.len()
    &&& forall|i: int| start <= i < end ==> marks[i]
    &&& (start == 0 || !marks[start - 1])
    &&& (end == marks.len() || !marks[end])
}

/// The first run that starts at or after `from`, where `from` is not inside
/// a run.
pub open spec fn first_run(marks: Seq<bool>, from: int) -> Option<(int, int)> {
    let start = scan(marks, from, true);
    if 0 <= from && start < marks.len() {
        Some((start, scan(marks, start, false)))
    } else {
        None
    }
}

/// The runs that start at or after `from`, from left to right.
pub open spec fn runs_from(marks: Seq<bool>, from: int) -> Seq<(int, int)>
    decreases marks.len() - from,
{
    match first_run(marks, from) {
        Some((start, end)) => if from < end <= marks.len() {
            seq![(start, end)] + runs_from(marks, end)
        } else {
            Seq::empty()
        },
        None => Seq::empty(),
    }
}

/// All runs of `marks`, from left to right.
pub open spec fn runs(marks: Seq<bool>) -> Seq<(int, int)> {
    runs_from(marks, 0)
}

/// `scan` stops at the first mark that is `wanted`: every mark it passes is
/// the other one.
pub proof fn lemma_scan(marks: Seq<bool>, from: int, wanted: bool)
    requires
        0 <= from <= marks.len(),
    ensures
        from <= scan(marks, from, wanted) <= marks.len(),
        forall|i: int| from <= i < scan(marks, from, wanted) ==> marks[i] != wanted,
        scan(marks, from, wanted) < marks.len() ==> marks[scan(marks, from, wanted)] == wanted,
    decreases marks.len() - from,
{
    if from < marks.len() && marks[from] != wanted {
        lemma_scan(marks, from + 1, wanted);
    }
}

/// Finds the first run of set marks that starts at or after `from`.
///
/// `from` is meant to be a position outside any run (the start of the marks,
/// or the end of the run found before); the marks before it are not read.
pub fn find_run(marks: &[bool], from: usize) -> (found: Option<(usize, usize)>)
    ensures
        match found {
            Some((start, end)) => {
                &&& from <= start < end <= marks@.len()
                &&& forall|i: int| from <= i < start ==> !marks@[i]
                &&& forall|i: int| start <= i < end ==> marks@[i]
                &&& (end == marks@.len() || !marks@[end as int])
            },
            None => forall|i: int| from <= i < marks@.len() ==> !marks@[i],
        },
        first_run(marks@, from as int) == match found {
            Some((start, end)) => Some((start as int, end as int)),
            None => None,
        },
{
    let n = marks.len();
    if from >= n {
        return None;
    }
    let mut start: usize = from;
    while start < n && !marks[start]
        invariant
            n == marks@.len(),
            from <= start <= n,
            forall|i: int| from <= i < start ==> !marks@[i],
            scan(marks@, from as int, true) == scan(marks@, start as int, true),
        decreases n - start,
    {
        start += 1;
    }
    if start >= n {
        return None;
    }
    let mut end: usize = start + 1;
    while end < n && marks[end]
        invariant
            n == marks@.len(),
            start < end <= n,
            forall|i: int| start <= i < end ==> marks@[i],
            scan(marks@, start as int, false) == scan(marks@, end as int, false),
        decreases n - end,
    {
        end += 1;
    }
    Some((start, end))
}

/// Whether `from` is a place where a scan may start: a position of `marks`,
/// or its end, that does not lie inside a run.
pub open spec fn outside_run(marks: Seq<bool>, from: int) -> bool {
    &&& 0 <= from <= marks.len()
    &&& !(0 < from < marks.len() && marks[from - 1] && marks[from])
}

/// What `first_run` finds from outside a run is a run, and it is the first:
/// no mark between `from` and its start is set.
pub proof fn lemma_first_run(marks: Seq<bool>, from: int)
    requires
        outside_run(marks, from),
    ensures
        match first_run(marks, from) {
            Some((start, end)) => {
                &&& from <= start
                &&& is_run(marks, start, end)
                &&& outside_run(marks, end)
                &&& forall|i: int| from <= i < start ==> !marks[i]
            },
            None => forall|i: int| from <= i < marks.len() ==> !marks[i],
        },
{
    lemma_scan(marks, from, true);
    let start = scan(marks, from, true);
    if start < marks.len() {
        lemma_scan(marks, start, false);
        if start > from {
            assert(!marks[start - 1]);
        }
    }
}

/// Every entry of `runs_from` is a run at or after `from`, and each entry
/// ends before the next one starts.
pub proof fn lemma_runs_from_sound(marks: Seq<bool>, from: int)
    requires
        outside_run(marks, from),
    ensures
        forall|k: int|
            0 <= k < runs_from(marks, from).len() ==> {
                &&& from <= (#[trigger] runs_from(marks, from)[k]).0
                &&& is_run(marks, runs_from(marks, from)[k].0, runs_from(marks, from)[k].1)
            },
        forall|j: int, k: int|
            0 <= j < k < runs_from(marks, from).len() ==> (#[trigger] runs_from(marks, from)[j]).1
                < (#[trigger] runs_from(marks, from)[k]).0,
    decreases marks.len() - from,
{
    lemma_first_run(marks, from);
    match first_run(marks, from) {
        Some((start, end)) => {
            lemma_runs_from_sound(marks, end);
            let rest = runs_from(marks, end);
            let all = runs_from(marks, from);
            assert(all =~= seq![(start, end)] + rest);
            assert forall|k: int| 0 <= k < all.len() implies {
                &&& from <= (#[trigger] all[k]).0
                &&& is_run(marks, all[k].0, all[k].1)
            } by {
                if k > 0 {
                    assert(all[k] == rest[k - 1]);
                }
            }
            assert forall|j: int, k: int| 0 <= j < k < all.len() implies (#[trigger] all[j]).1 < (
            #[trigger] all[k]).0 by {
                assert(all[k] == rest[k - 1]);
                if j > 0 {
                    assert(all[j] == rest[j - 1]);
                } else {
                    // the run after `end` starts behind the mark that ended this one
                    assert(end <= rest[k - 1].0);
                    assert(is_run(marks, rest[k - 1].0, rest[k - 1].1));
                    if end < marks.len() {
                        assert(!marks[end]);
                    }
                }
            }
        },
        None => {},
    }
}

/// Every run at or after `from` is an entry of `runs_from`.
pub proof fn lemma_runs_from_complete(marks: Seq<bool>, from: int, start: int, end: int)
    requires
        outside_run(marks, from),
        from <= start,
        is_run(marks, start, end),
    ensures
        runs_from(marks, from).contains((start, end)),
    decreases marks.len() - from,
{
    lemma_first_run(marks, from);
    match first_run(marks, from) {
        Some((first_start, first_end)) => {
            let all = runs_from(marks, from);
            assert(all =~= seq![(first_start, first_end)] + runs_from(marks, first_end));
            assert(marks[start]);
            assert(first_start <= start);
            if first_start == start {
                // two runs with one start end at the same place
                if first_end < end {
                    assert(marks[first_end]);
                } else if end < first_end {
                    assert(marks[end]);
                }
                assert(all[0] == (start, end));
            } else {
                // a later run cannot begin inside the first one
                if start < first_end {
                    assert(marks[start - 1]);
                }
                lemma_runs_from_complete(marks, first_end, start, end);
                let rest = runs_from(marks, first_end);
                let k = choose|k: int| 0 <= k < rest.len() && rest[k] == (start, end);
                assert(all[k + 1] == (start, end));
            }
        },
        None => {
            assert(marks[start]);
        },
    }
}

/// The entries of `runs` are exactly the runs of `marks`, each once, from
/// left to right.
pub proof fn lemma_runs(marks: Seq<bool>)
    ensures
        forall|k: int|
            0 <= k < runs(marks).len() ==> is_run(
                marks,
                (#[trigger] runs(marks)[k]).0,
                runs(marks)[k].1,
            ),
        forall|j: int, k: int|
            0 <= j < k < runs(marks).len() ==> (#[trigger] runs(marks)[j]).1 < (
            #[trigger] runs(marks)[k]).0,
        forall|start: int, end: int| #[trigger]
            is_run(marks, start, end) ==> runs(marks).contains((start, end)),
{
    lemma_runs_from_sound(marks, 0);
    assert forall|start: int, end: int| #[trigger] is_run(marks, start, end) implies runs(
        marks,
    ).contains((start, end)) by {
        lemma_runs_from_complete(marks, 0, start, end);
    }
}

/// For each character of `text`, whether it is alphanumeric.
pub open spec fn marks_of(text: Seq<char>) -> Seq<bool> {
    Seq::new(text.len(), |i: int| alphanumeric(text[i]))
}

/// The token that a run of `text` gives: its characters, in lowercase.
pub open spec fn token_at(text: Seq<char>, run: (int, int)) -> Seq<char> {
    lowercase(text.subrange(run.0, run.1))
}

/// The tokens of `text` that start at or after `from`, from left to right.
pub open spec fn tokens_from(text: Seq<char>, from: int) -> Seq<Seq<char>> {
    runs_from(marks_of(text), from).map_values(|run: (int, int)| token_at(text, run))
}

/// The tokens of `text`: one for each maximal run of alphanumeric
/// characters, from left to right, each in lowercase.
pub open spec fn tokens_of(text: Seq<char>) -> Seq<Seq<char>> {
    tokens_from(text, 0)
}

/// A text without characters has no tokens.
pub proof fn lemma_empty_text_has_no_tokens()
    ensures
        tokens_of(Seq::<char>::empty()) == Seq::<Seq<char>>::empty(),
{
    assert(tokens_of(Seq::<char>::empty()) =~= Seq::<Seq<char>>::empty());
}

/// A text without alphanumeric characters has no tokens.
pub proof fn lemma_separators_have_no_tokens(text: Seq<char>)
    requires
        forall|i: int| 0 <= i < text.len() ==> !alphanumeric(text[i]),
    ensures
        tokens_of(text) == Seq::<Seq<char>>::empty(),
{
    lemma_first_run(marks_of(text), 0);
    assert(tokens_of(text) =~= Seq::<Seq<char>>::empty());
}

/// Each token of a text is the lowercase form of one of its maximal runs of
/// alphanumeric characters, and each such run gives a token.
pub proof fn lemma_tokens_are_runs(text: Seq<char>)
    ensures
        tokens_of(text).len() == runs(marks_of(text)).len(),
        forall|k: int|
            0 <= k < tokens_of(text).len() ==> {
                let run = runs(marks_of(text))[k];
                &&& is_run(marks_of(text), run.0, run.1)
                &&& #[trigger] tokens_of(text)[k] == lowercase(text.subrange(run.0, run.1))
            },
{
    lemma_runs(marks_of(text));
}

/// A tokenizer over borrowed text.  It hands out the tokens one by one, from
/// left to right; a new tokenizer over the same text hands out the same
/// tokens again.
pub struct Lexer<'a> {
    content: &'a [char],
    marks: Vec<bool>,
    position: usize,
}

impl<'a> View for Lexer<'a> {
    type V = Seq<Seq<char>>;

    /// The tokens that are still to come.
    open spec fn view(&self) -> Seq<Seq<char>> {
        tokens_from(self.text(), self.position())
    }
}

impl<'a> Lexer<'a> {
    /// The text that is cut into tokens.
    pub closed spec fn text(&self) -> Seq<char> {
        self.content@
    }

    /// How many characters of the text have been read.
    pub closed spec fn position(&self) -> int {
        self.position as int
    }

    /// The marks are those of the text, and the position lies within it.
    pub closed spec fn wf(&self) -> bool {
        &&& self.marks@ == marks_of(self.content@)
        &&& self.position <= self.content@.len()
    }

    /// A tokenizer at the start of `content`.
    pub fn new(content: &'a [char]) -> (lexer: Self)
        ensures
            lexer.wf(),
            lexer.text() == content@,
            lexer.position() == 0,
            lexer@ == tokens_of(content@),
    {
        let n = content.len();
        let mut marks: Vec<bool> = Vec::with_capacity(n);
        let mut i: usize = 0;
        while i < n
            invariant
                n == content@.len(),
                i <= n,
                marks@.len() == i,
                forall|j: int| 0 <= j < i ==> marks@[j] == alphanumeric(content@[j]),
            decreases n - i,
        {
            marks.push(content[i].is_alphanumeric());
            i += 1;
        }
        assert(marks@ =~= marks_of(content@));
        Lexer { content, marks, position: 0 }
    }

    /// Hands out the next token, or `None` when the text holds no more.
    pub fn next_token(&mut self) -> (token: Option<String>)
        requires
            old(self).wf(),
        ensures
            final(self).wf(),
            final(self).text() == old(self).text(),
            old(self).position() <= final(self).position() <= old(self).text().len(),
            match token {
                Some(word) => {
                    &&& old(self)@ == seq![word@] + final(self)@
                    &&& old(self).position() < final(self).position()
                },
                None => {
                    &&& old(self)@ == Seq::<Seq<char>>::empty()
                    &&& final(self)@ == Seq::<Seq<char>>::empty()
                },
            },
    {
        let found = find_run(self.marks.as_slice(), self.position);
        match found {
            Some((start, end)) => {
                let mut word = String::new();
                let mut i: usize = start;
                while i < end
                    invariant
                        start <= i <= end <= self.content@.len(),
                        word@ == self.content@.subrange(start as int, i as int),
                    decreases end - i,
                {
                    word.push(self.content[i]);
                    i += 1;
                    assert(self.content@.subrange(start as int, i as int)
                        =~= self.content@.subrange(start as int, i - 1).push(
                        self.content@[i - 1],
                    ));
                }
                self.position = end;
                let token = word.as_str().to_lowercase();
                proof {
                    let text = self.content@;
                    let marks = self.marks@;
                    let rest = runs_from(marks, end as int);
                    assert(runs_from(marks, old(self).position as int) =~= seq![
                        (start as int, end as int),
                    ] + rest);
                    assert(old(self)@ =~= seq![token@] + self@);
                }
                Some(token)
            },
            None => {
                self.position = self.content.len();
                proof {
                    lemma_scan(self.marks@, self.position as int, true);
                    assert(old(self)@ =~= Seq::<Seq<char>>::empty());
                    assert(self@ =~= Seq::<Seq<char>>::empty());
                }
                None
            },
        }
    }
}

/// Cuts `content` into its tokens.
pub fn tokenize(content: &[char]) -> (tokens: Vec<String>)
    ensures
        tokens.deep_view() == tokens_of(content@),
{
    let mut lexer = Lexer::new(content);
    let mut tokens: Vec<String> = Vec::new();
    assert(tokens.deep_view() =~= Seq::<Seq<char>>::empty());
    loop
        invariant_except_break
            lexer.wf(),
            lexer.text() == content@,
            tokens.deep_view() + lexer@ == tokens_of(content@),
        ensures
            tokens.deep_view() == tokens_of(content@),
        decreases content@.len() - lexer.position(),
    {
        let ghost before = tokens.deep_view();
        match lexer.next_token() {
            Some(word) => {
                let ghost head = word@;
                tokens.push(word);
                assert(tokens.deep_view() =~= before.push(head));
                assert(tokens.deep_view() + lexer@ =~= tokens_of(content@));
            },
            None => {
                assert(tokens.deep_view() + lexer@ =~= tokens.deep_view());
                break ;
            },
        }
    }
    tokens
}

} // verus!
