//! The scanner: from source text to a validated stream of tokens.
use vstd::prelude::*;
use vstd::string::*;
use crate::grammar::{count_of, lemma_count_of_bound, lemma_count_of_push, Token};

verus! {

/// The token that a character stands for; `None` for every other character.
pub open spec fn token_of(c: char) -> Option<Token> {
    if c == '<' {
        Some(Token::MoveBack)
    } else if c == '>' {
        Some(Token::MoveForward)
    } else if c == '+' {
        Some(Token::Add)
    } else if c == '-' {
        Some(Token::Sub)
    } else if c == '.' {
        Some(Token::StdOut)
    } else if c == ',' {
        Some(Token::StdIn)
    } else if c == '[' {
        Some(Token::LoopStart)
    } else if c == ']' {
        Some(Token::LoopEnd)
    } else {
        None
    }
}

/// The tokens of a text, in the order of the text.
pub open spec fn tokens_of(s: Seq<char>) -> Seq<Token>
    decreases s.len(),
{
    if s.len() == 0 {
        Seq::empty()
    } else {
        match token_of(s.last()) {
            Some(t) => tokens_of(s.drop_last()).push(t),
            None => tokens_of(s.drop_last()),
        }
    }
}

/// Open brackets of `s` minus its closing brackets.
pub open spec fn depth(s: Seq<char>) -> int {
    count_of(s, '[') - count_of(s, ']')
}

/// Where the cursor would stand after the moves of `s`, taken once each in
/// the order of the text.
pub open spec fn pointer(s: Seq<char>) -> int {
    count_of(s, '>') - count_of(s, '<')
}

/// Neither more `]` than `[` nor more `<` than `>`.
pub open spec fn in_order(s: Seq<char>) -> bool {
    depth(s) >= 0 && pointer(s) >= 0
}

/// Every prefix of `s` of at most `n` characters is in order.
pub open spec fn clean(s: Seq<char>, n: int) -> bool {
    forall|k: int| 0 <= k <= n ==> #[trigger] in_order(s.take(k))
}

/// The character at `i` is the first that puts a prefix of `s` out of order.
pub open spec fn first_offence(s: Seq<char>, i: int) -> bool {
    &&& 0 <= i < s.len()
    &&& clean(s, i)
    &&& !in_order(s.take(i + 1))
}

/// The texts that the scanner accepts: no prefix is out of order, and no
/// bracket stays open.
pub open spec fn accepted(s: Seq<char>) -> bool {
    clean(s, s.len() as int) && depth(s) == 0
}

/// Open loops of `t` minus its closed ones.
pub open spec fn nesting(t: Seq<Token>) -> int {
    count_of(t, Token::LoopStart) - count_of(t, Token::LoopEnd)
}

/// Every loop of `t` that is closed was opened before, and none stays open.
pub open spec fn balanced(t: Seq<Token>) -> bool {
    &&& nesting(t) == 0
    &&& forall|k: int| 0 <= k <= t.len() ==> #[trigger] nesting(t.take(k)) >= 0
}

/// The line of the character at `i`, counted from 1.
pub open spec fn line_of(s: Seq<char>, i: int) -> nat {
    1 + count_of(s.take(i + 1), '\n')
}

/// How many characters of `s` follow its last line feed.
pub open spec fn tail_len(s: Seq<char>) -> nat
    decreases s.len(),
{
    if s.len() == 0 || s.last() == '\n' {
        0
    } else {
        tail_len(s.drop_last()) + 1
    }
}

/// The column of the character at `i`, counted from 1 within its line; a
/// line feed has column 0.
pub open spec fn column_of(s: Seq<char>, i: int) -> nat {
    tail_len(s.take(i + 1))
}

/// The widest an excerpt reaches to either side of the character it marks.
pub const EXCERPT_REACH: usize = 9;

/// How many characters before `i` an excerpt takes in: those of the same
/// line, and at most `limit`.
pub open spec fn reach_left(s: Seq<char>, i: int, limit: nat) -> nat
    decreases limit,
{
    if limit == 0 || i <= 0 || s[i - 1] == '\n' {
        0
    } else {
        reach_left(s, i - 1, (limit - 1) as nat) + 1
    }
}

/// How many characters after `i` an excerpt takes in: those of the same
/// line, and at most `limit`.
pub open spec fn reach_right(s: Seq<char>, i: int, limit: nat) -> nat
    decreases limit,
{
    if limit == 0 || i + 1 >= s.len() || s[i + 1] == '\n' {
        0
    } else {
        reach_right(s, i + 1, (limit - 1) as nat) + 1
    }
}

/// Where the excerpt round the character at `i` begins.
pub open spec fn excerpt_start(s: Seq<char>, i: int) -> int {
    i - reach_left(s, i, EXCERPT_REACH as nat)
}

/// Where the excerpt round the character at `i` ends (exclusive).
pub open spec fn excerpt_end(s: Seq<char>, i: int) -> int {
    i + reach_right(s, i, EXCERPT_REACH as nat) + 1
}

/// Why the scanner rejects a text.
#[derive(Debug, Copy, Clone, PartialEq, Eq, Structural)]
pub enum StructuralError {
    /// A `]` that closes no loop.
    UnmatchedClose,
    /// `excess` loops are opened and never closed.
    UnmatchedOpen { excess: u32 },
    /// A `<` that would take the cursor below the first cell, going by the
    /// moves in the order of the text.
    NegativeIndex,
}

/// What the scanner reports of a text that it rejects.
#[derive(Debug, Clone, PartialEq, Eq)]
pub struct Diagnostic {
    /// Why the text is rejected.
    pub kind: StructuralError,
    /// Line of the offending character, from 1.
    pub line: u32,
    /// Column of the offending character within its line, from 1.
    pub column: u32,
    /// The sentence that describes the error.
    pub message: String,
    /// The part of the offending line round the offending character.
    pub source_excerpt: String,
    /// Where in the excerpt the offending character stands.
    pub caret_offset: usize,
}

/// The decimal digit of value `d`.
pub open spec fn digit(d: nat) -> char {
    "0123456789"@[d as int]
}

/// `n` written in decimal, without leading zeros.
pub open spec fn decimal(n: nat) -> Seq<char>
    decreases n,
{
    if n < 10 {
        seq![digit(n)]
    } else {
        decimal(n / 10).push(digit(n % 10))
    }
}

impl StructuralError {
    /// The sentence that describes this error.
    pub open spec fn text(self) -> Seq<char> {
        match self {
            StructuralError::UnmatchedClose => "Not enough matches for ']'"@,
            StructuralError::UnmatchedOpen { excess } => "An Excess of "@ + decimal(excess as nat)
                + " '[' brackets were found"@,
            StructuralError::NegativeIndex => "Index runs out of bounds"@,
        }
    }

    /// The sentence that describes this error.
    pub fn message(&self) -> (result: String)
        ensures
            result@ == self.text(),
    {
        match self {
            StructuralError::UnmatchedClose => String::from_str("Not enough matches for ']'"),
            StructuralError::UnmatchedOpen { excess } => {
                let mut result = String::from_str("An Excess of ");
                let number = decimal_string(*excess);
                result.append(number.as_str());
                result.append(" '[' brackets were found");
                result
            },
            StructuralError::NegativeIndex => String::from_str("Index runs out of bounds"),
        }
    }
}

/// The digit of value `d` as a string of one character.
fn digit_str(d: u32) -> (result: &'static str)
    requires
        d < 10,
    ensures
        result@ == seq![digit(d as nat)],
{
    let digits = "0123456789";
    proof {
        reveal_strlit("0123456789");
        assert(digits.is_ascii());
    }
    let result = digits.substring_ascii(d as usize, d as usize + 1);
    assert(result@ =~= seq![digit(d as nat)]);
    result
}

/// Writes `n` in decimal.
fn decimal_string(n: u32) -> (result: String)
    ensures
        result@ == decimal(n as nat),
    decreases n,
{
    if n < 10 {
        String::from_str(digit_str(n))
    } else {
        let mut result = decimal_string(n / 10);
        result.append(digit_str(n % 10));
        result
    }
}

impl Diagnostic {
    /// This report points at the character of `s` at `i`.
    pub open spec fn locates(&self, s: Seq<char>, i: int) -> bool {
        &&& self.line == line_of(s, i)
        &&& self.column == column_of(s, i)
        &&& self.source_excerpt@ == s.subrange(excerpt_start(s, i), excerpt_end(s, i))
        &&& self.caret_offset == i - excerpt_start(s, i)
    }

    /// This is the report that the text `s` calls for: of the first
    /// character that puts it out of order, or else of the loops that it
    /// leaves open, marked at its last character.
    pub open spec fn reports(&self, s: Seq<char>) -> bool {
        &&& self.message@ == self.kind.text()
        &&& forall|i: int| #[trigger]
            first_offence(s, i) ==> self.locates(s, i) && self.kind == if s[i] == ']' {
                StructuralError::UnmatchedClose
            } else {
                StructuralError::NegativeIndex
            }
        &&& clean(s, s.len() as int) ==> self.locates(s, s.len() - 1) && self.kind
            == (StructuralError::UnmatchedOpen { excess: depth(s) as u32 })
    }
}

/// A prefix one longer is the prefix with one character more.
proof fn lemma_take_next<A>(s: Seq<A>, i: int)
    requires
        0 <= i < s.len(),
    ensures
        s.take(i + 1).drop_last() == s.take(i),
        s.take(i + 1).last() == s[i],
        s.take(i + 1).len() == i + 1,
{
    assert(s.take(i + 1).drop_last() =~= s.take(i));
}

/// A line's tail is no longer than the text.
proof fn lemma_tail_len_bound(s: Seq<char>)
    ensures
        tail_len(s) <= s.len(),
    decreases s.len(),
{
    if s.len() > 0 {
        lemma_tail_len_bound(s.drop_last());
    }
}

/// What one more character adds to each measure of a prefix.
proof fn lemma_scan_step(s: Seq<char>, i: int)
    requires
        0 <= i < s.len(),
    ensures
        forall|a: char| #[trigger]
            count_of(s.take(i + 1), a) == count_of(s.take(i), a) + if s[i] == a {
                1nat
            } else {
                0nat
            },
        tokens_of(s.take(i + 1)) == match token_of(s[i]) {
            Some(t) => tokens_of(s.take(i)).push(t),
            None => tokens_of(s.take(i)),
        },
        tail_len(s.take(i + 1)) == if s[i] == '\n' {
            0
        } else {
            tail_len(s.take(i)) + 1
        },
        count_of(s.take(i), '[') <= i,
        count_of(s.take(i), '>') <= i,
        count_of(s.take(i), '\n') <= i,
        tail_len(s.take(i)) <= i,
{
    lemma_take_next(s, i);
    lemma_count_of_bound(s.take(i), '[');
    lemma_count_of_bound(s.take(i), '>');
    lemma_count_of_bound(s.take(i), '\n');
    lemma_tail_len_bound(s.take(i));
}

/// A text has at most one first offence.
pub proof fn lemma_first_offence_unique(s: Seq<char>, i: int, j: int)
    requires
        first_offence(s, i),
        first_offence(s, j),
    ensures
        i == j,
{
    if i < j {
        assert(in_order(s.take(i + 1)));
    }
    if j < i {
        assert(in_order(s.take(j + 1)));
    }
}

/// The first character that puts a text out of order is a `]` that closes
/// no loop or a `<` on the first cell.
pub proof fn lemma_first_offence_symbol(s: Seq<char>, i: int)
    requires
        first_offence(s, i),
    ensures
        s[i] == ']' || s[i] == '<',
        s[i] == ']' <==> depth(s.take(i + 1)) < 0,
        s[i] == '<' <==> pointer(s.take(i + 1)) < 0,
{
    lemma_scan_step(s, i);
    assert(in_order(s.take(i)));
}

/// A text holds each bracket as often as its tokens do, and so each
/// other symbol.
pub proof fn lemma_tokens_count(s: Seq<char>, t: Token)
    ensures
        count_of(tokens_of(s), t) == count_of(s, t.symbol()),
    decreases s.len(),
{
    if s.len() > 0 {
        lemma_tokens_count(s.drop_last(), t);
        match token_of(s.last()) {
            Some(u) => {
                lemma_count_of_push(tokens_of(s.drop_last()), u, t);
            },
            None => {},
        }
    }
}

/// A text whose brackets are correctly nested, and whose moves never take
/// the cursor below the first cell, is accepted, and its tokens open as many
/// loops as they close.
pub proof fn lemma_nested_text_accepted(s: Seq<char>)
    requires
        depth(s) == 0,
        forall|k: int| 0 <= k <= s.len() ==> depth(#[trigger] s.take(k)) >= 0,
        forall|k: int| 0 <= k <= s.len() ==> pointer(#[trigger] s.take(k)) >= 0,
    ensures
        accepted(s),
        count_of(tokens_of(s), Token::LoopStart) == count_of(tokens_of(s), Token::LoopEnd),
{
    lemma_tokens_count(s, Token::LoopStart);
    lemma_tokens_count(s, Token::LoopEnd);
}

/// Where a prefix of a text has more `]` than `[`, and no move up to there
/// has taken the cursor below the first cell, the text is rejected, and its
/// report is of an unmatched `]` at the end of the first such prefix.
pub proof fn lemma_unmatched_close_reported(s: Seq<char>, i: int, d: Diagnostic)
    requires
        0 <= i < s.len(),
        depth(s.take(i + 1)) < 0,
        forall|k: int| 0 <= k <= i ==> depth(#[trigger] s.take(k)) >= 0,
        forall|k: int| 0 <= k <= i + 1 ==> pointer(#[trigger] s.take(k)) >= 0,
        d.reports(s),
    ensures
        !accepted(s),
        s[i] == ']',
        d.kind == StructuralError::UnmatchedClose,
        d.locates(s, i),
{
    lemma_scan_step(s, i);
    assert(depth(s.take(i)) >= 0);
    assert(first_offence(s, i));
    if clean(s, s.len() as int) {
        assert(in_order(s.take(i + 1)));
    }
}

/// Where a `<` is the first character to put a text out of order, the text
/// is rejected, and its report is of a cursor below the first cell, at that
/// character.
pub proof fn lemma_negative_index_reported(s: Seq<char>, i: int, d: Diagnostic)
    requires
        first_offence(s, i),
        s[i] == '<',
        d.reports(s),
    ensures
        !accepted(s),
        d.kind == StructuralError::NegativeIndex,
        d.locates(s, i),
{
    if clean(s, s.len() as int) {
        assert(in_order(s.take(i + 1)));
    }
}

/// Where no prefix of a text is out of order and brackets stay open, the
/// text is rejected, and its report counts the brackets that stay open.
pub proof fn lemma_unmatched_open_reported(s: Seq<char>, d: Diagnostic)
    requires
        s.len() < u32::MAX,
        clean(s, s.len() as int),
        depth(s) > 0,
        d.reports(s),
    ensures
        !accepted(s),
        d.kind == (StructuralError::UnmatchedOpen { excess: depth(s) as u32 }),
        depth(s) as u32 == depth(s),
        d.locates(s, s.len() - 1),
{
    lemma_count_of_bound(s, '[');
}

/// The scanner and what it has gathered.
#[derive(Debug)]
pub struct Lexer {
    /// The tokens found so far.
    tokens_: Vec<Token>,
    /// The line that the scan has reached, from 1.
    line_num_: u32,
    /// How many characters of that line the scan has taken.
    line_idx_: u32,
    /// Loops that are open where the scan stands.
    brace_stack_: u32,
    /// Where the cursor would stand after the moves scanned so far.
    ptr_sim_: u32,
}

impl View for Lexer {
    type V = Seq<Token>;

    closed spec fn view(&self) -> Seq<Token> {
        self.tokens_@
    }
}

impl Lexer {
    /// The scanner has taken the first `n` characters of `s`.
    closed spec fn tracks(&self, s: Seq<char>, n: int) -> bool {
        let p = s.take(n);
        &&& self.tokens_@ == tokens_of(p)
        &&& self.brace_stack_ == depth(p)
        &&& self.ptr_sim_ == pointer(p)
        &&& self.line_num_ == 1 + count_of(p, '\n')
        &&& self.line_idx_ == tail_len(p)
        &&& nesting(self.tokens_@) == depth(p)
        &&& forall|k: int|
            0 <= k <= self.tokens_@.len() ==> #[trigger] nesting(self.tokens_@.take(k)) >= 0
    }

    /// Scans `program`. The scanner that comes back holds the tokens of the
    /// text; a text that is out of order at some character, or leaves a loop
    /// open, is rejected with a report.
    pub fn new(program: String) -> (result: Result<Lexer, Diagnostic>)
        requires
            program@.len() < u32::MAX,
        ensures
            result is Ok <==> accepted(program@),
            result matches Ok(lexer) ==> lexer@ == tokens_of(program@) && balanced(lexer@),
            result matches Err(d) ==> d.reports(program@),
    {
        let mut lex = Lexer {
            tokens_: Vec::new(),
            line_num_: 1,
            line_idx_: 0,
            brace_stack_: 0,
            ptr_sim_: 0,
        };
        proof {
            assert(program@.take(0) =~= Seq::<char>::empty());
            assert(lex.tokens_@.take(0) =~= lex.tokens_@);
        }
        match lex.tokenize(&program) {
            Ok(()) => Ok(lex),
            Err(d) => Err(d),
        }
    }

    /// Takes the characters of `program` one by one, from the first.
    fn tokenize(&mut self, program: &String) -> (result: Result<(), Diagnostic>)
        requires
            program@.len() < u32::MAX,
            old(self).tracks(program@, 0),
        ensures
            result is Ok <==> accepted(program@),
            result is Ok ==> final(self)@ == tokens_of(program@) && balanced(final(self)@),
            result matches Err(d) ==> d.reports(program@),
    {
        let text = program.as_str();
        let ghost s = program@;
        let mut idx: usize = 0;
        for c in it: text.chars()
            invariant
                it.seq() == s,
                text@ == s,
                program@ == s,
                idx == it.index(),
                s.len() < u32::MAX,
                clean(s, idx as int),
                self.tracks(s, idx as int),
        {
            proof {
                lemma_scan_step(s, idx as int);
            }
            let ghost before = self.tokens_@;
            self.line_idx_ += 1;
            if c == '>' {
                self.ptr_sim_ += 1;
                self.tokens_.push(Token::MoveForward);
            } else if c == '<' {
                if self.ptr_sim_ == 0 {
                    let d = self.throw_run_err(text, idx, StructuralError::NegativeIndex);
                    proof {
                        lemma_reports_offence(s, idx as int, d);
                    }
                    return Err(d);
                }
                self.ptr_sim_ -= 1;
                self.tokens_.push(Token::MoveBack);
            } else if c == '+' {
                self.tokens_.push(Token::Add);
            } else if c == '-' {
                self.tokens_.push(Token::Sub);
            } else if c == '.' {
                self.tokens_.push(Token::StdOut);
            } else if c == ',' {
                self.tokens_.push(Token::StdIn);
            } else if c == '[' {
                self.brace_stack_ += 1;
                self.tokens_.push(Token::LoopStart);
            } else if c == ']' {
                if self.brace_stack_ == 0 {
                    let d = self.throw_run_err(text, idx, StructuralError::UnmatchedClose);
                    proof {
                        lemma_reports_offence(s, idx as int, d);
                    }
                    return Err(d);
                }
                self.brace_stack_ -= 1;
                self.tokens_.push(Token::LoopEnd);
            } else if c == Self::new_line() {
                self.line_num_ += 1;
                self.line_idx_ = 0;
            }
            proof {
                let after = self.tokens_@;
                if token_of(c) is Some {
                    let t = token_of(c)->0;
                    lemma_count_of_push(before, t, Token::LoopStart);
                    lemma_count_of_push(before, t, Token::LoopEnd);
                    assert forall|k: int| 0 <= k <= after.len() implies #[trigger] nesting(
                        after.take(k),
                    ) >= 0 by {
                        if k < after.len() {
                            assert(after.take(k) =~= before.take(k));
                        } else {
                            assert(after.take(k) =~= after);
                        }
                    }
                }
                assert forall|k: int| 0 <= k <= idx + 1 implies #[trigger] in_order(s.take(k)) by {
                    if k <= idx {
                        assert(in_order(s.take(k)));
                    }
                }
            }
            idx += 1;
        }
        proof {
            assert(s.take(idx as int) =~= s);
        }
        if self.brace_stack_ > 0 {
            let d = self.throw_run_err(
                text,
                idx - 1,
                StructuralError::UnmatchedOpen { excess: self.brace_stack_ },
            );
            proof {
                assert(s.take(idx - 1 + 1) =~= s);
                assert forall|i: int| first_offence(s, i) implies false by {
                    assert(in_order(s.take(i + 1)));
                }
            }
            return Err(d);
        }
        proof {
            assert(self.tokens_@.take(self.tokens_@.len() as int) =~= self.tokens_@);
        }
        Ok(())
    }

    /// The line feed, which ends a line of the source.
    pub fn new_line() -> (c: char)
        ensures
            c == '\n',
    {
        '\n'
    }

    /// Hands over the tokens.
    pub fn tokens(self) -> (tokens: Vec<Token>)
        ensures
            tokens@ == self@,
    {
        self.tokens_
    }

    /// Cuts the excerpt round the character at `lexer_idx` out of `program`, and
    /// says where in it that character stands.
    pub fn extract_err_line(program: &str, lexer_idx: usize) -> (result: (&str, usize))
        requires
            lexer_idx < program@.len(),
        ensures
            result.0@ == program@.subrange(
                excerpt_start(program@, lexer_idx as int),
                excerpt_end(program@, lexer_idx as int),
            ),
            result.1 == lexer_idx - excerpt_start(program@, lexer_idx as int),
    {
        let ghost s = program@;
        let len: usize = program.unicode_len();
        let mut l_ptr: usize = lexer_idx;
        let mut r_ptr: usize = lexer_idx;
        let mut left: usize = EXCERPT_REACH;
        while left > 0 && l_ptr > 0 && program.get_char(l_ptr - 1) != '\n'
            invariant
                s == program@,
                l_ptr <= lexer_idx < s.len(),
                left <= EXCERPT_REACH,
                reach_left(s, lexer_idx as int, EXCERPT_REACH as nat) == (lexer_idx - l_ptr)
                    + reach_left(s, l_ptr as int, left as nat),
            decreases left,
        {
            l_ptr -= 1;
            left -= 1;
        }
        let mut right: usize = EXCERPT_REACH;
        while right > 0 && r_ptr + 1 < len && program.get_char(r_ptr + 1) != '\n'
            invariant
                s == program@,
                len == s.len(),
                lexer_idx <= r_ptr < s.len(),
                right <= EXCERPT_REACH,
                reach_right(s, lexer_idx as int, EXCERPT_REACH as nat) == (r_ptr - lexer_idx)
                    + reach_right(s, r_ptr as int, right as nat),
            decreases right,
        {
            r_ptr += 1;
            right -= 1;
        }
        (program.substring_char(l_ptr, r_ptr + 1), lexer_idx - l_ptr)
    }

    /// Makes the report of an error of the given kind at the character at
    /// `lexer_idx`, which the scan has just taken.
    fn throw_run_err(&self, program: &str, lexer_idx: usize, kind: StructuralError) -> (d:
        Diagnostic)
        requires
            lexer_idx < program@.len(),
        ensures
            d.kind == kind,
            d.line == self.line_num_,
            d.column == self.line_idx_,
            d.message@ == kind.text(),
            d.source_excerpt@ == program@.subrange(
                excerpt_start(program@, lexer_idx as int),
                excerpt_end(program@, lexer_idx as int),
            ),
            d.caret_offset == lexer_idx - excerpt_start(program@, lexer_idx as int),
    {
        let (excerpt, offset) = Self::extract_err_line(program, lexer_idx);
        Diagnostic {
            kind,
            line: self.line_num_,
            column: self.line_idx_,
            message: kind.message(),
            source_excerpt: String::from_str(excerpt),
            caret_offset: offset,
        }
    }
}

/// A report that points at the first offence of a text, with the kind that
/// the offending character calls for, is the report of that text.
proof fn lemma_reports_offence(s: Seq<char>, i: int, d: Diagnostic)
    requires
        first_offence(s, i),
        d.locates(s, i),
        d.message@ == d.kind.text(),
        d.kind == if s[i] == ']' {
            StructuralError::UnmatchedClose
        } else {
            StructuralError::NegativeIndex
        },
    ensures
        d.reports(s),
        !accepted(s),
{
    assert forall|j: int| #[trigger] first_offence(s, j) implies j == i by {
        lemma_first_offence_unique(s, i, j);
    }
    if clean(s, s.len() as int) {
        assert(in_order(s.take(i + 1)));
    }
}

} // verus!
