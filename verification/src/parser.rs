//! Line classification and field extraction.
//!
//! A raw source program is an ordered sequence of text lines. The parser
//! first removes blank and comment-only lines and strips trailing comments
//! and surrounding whitespace ([`clean_lines`] is the specification of that
//! cleaning). Each remaining line is one instruction, classified by its
//! first character: `@` starts an address instruction, `(` a label, and
//! anything else a compute instruction, whose destination, computation and
//! jump fields are split at `=` and `;` ([`c_fields`]).

use crate::AsmError;
use vstd::prelude::*;

verus! {

/// Whitespace that is trimmed from both ends of a line.
pub open spec fn is_space(c: char) -> bool {
    c == ' ' || c == '\t' || c == '\r' || c == '\n'
}

/// `s` without its leading whitespace.
pub open spec fn trim_front(s: Seq<char>) -> Seq<char>
    decreases s.len(),
{
    if s.len() > 0 && is_space(s[0]) {
        trim_front(s.subrange(1, s.len() as int))
    } else {
        s
    }
}

/// `s` without its trailing whitespace.
pub open spec fn trim_back(s: Seq<char>) -> Seq<char>
    decreases s.len(),
{
    if s.len() > 0 && is_space(s.last()) {
        trim_back(s.drop_last())
    } else {
        s
    }
}

/// `s` without leading and trailing whitespace.
pub open spec fn trimmed(s: Seq<char>) -> Seq<char> {
    trim_back(trim_front(s))
}

/// A comment marker `//` starts at position `i` of `s`.
pub open spec fn comment_at(s: Seq<char>, i: int) -> bool {
    0 <= i && i + 1 < s.len() && s[i] == '/' && s[i + 1] == '/'
}

/// The position of the first comment marker in `s`, or `-1`.
pub open spec fn find_comment(s: Seq<char>) -> int
    decreases s.len(),
{
    if s.len() < 2 {
        -1
    } else if s[0] == '/' && s[1] == '/' {
        0
    } else if find_comment(s.subrange(1, s.len() as int)) == -1 {
        -1
    } else {
        find_comment(s.subrange(1, s.len() as int)) + 1
    }
}

/// The position of the first `c` in `s`, or `-1`.
pub open spec fn find_char(s: Seq<char>, c: char) -> int
    decreases s.len(),
{
    if s.len() == 0 {
        -1
    } else if s[0] == c {
        0
    } else if find_char(s.subrange(1, s.len() as int), c) == -1 {
        -1
    } else {
        find_char(s.subrange(1, s.len() as int), c) + 1
    }
}

/// A line with its trailing comment removed and then trimmed.
pub open spec fn clean_line(s: Seq<char>) -> Seq<char> {
    if find_comment(s) >= 0 {
        trimmed(s.take(find_comment(s)))
    } else {
        trimmed(s)
    }
}

/// Whether a raw line survives cleaning: after trimming it is non-empty and
/// does not start a comment.
pub open spec fn keep_line(s: Seq<char>) -> bool {
    trimmed(s).len() > 0 && trimmed(s)[0] != '/'
}

/// The instruction lines of a raw program: blank and comment-only lines are
/// dropped; each kept line is cleaned.
pub open spec fn clean_lines(ls: Seq<Seq<char>>) -> Seq<Seq<char>>
    decreases ls.len(),
{
    if ls.len() == 0 {
        Seq::empty()
    } else if keep_line(ls.last()) {
        clean_lines(ls.drop_last()).push(clean_line(ls.last()))
    } else {
        clean_lines(ls.drop_last())
    }
}

/// `find_comment` names the first comment marker.
proof fn lemma_find_comment(s: Seq<char>)
    ensures
        find_comment(s) >= -1,
        find_comment(s) == -1 ==> forall|i: int| !comment_at(s, i),
        find_comment(s) >= 0 ==> comment_at(s, find_comment(s)),
        find_comment(s) >= 0 ==> forall|i: int| 0 <= i < find_comment(s) ==> !comment_at(s, i),
    decreases s.len(),
{
    if s.len() < 2 {
        assert(forall|i: int| !comment_at(s, i));
    } else if s[0] == '/' && s[1] == '/' {
    } else {
        let t = s.subrange(1, s.len() as int);
        lemma_find_comment(t);
        assert forall|i: int| 1 <= i && #[trigger] comment_at(s, i) implies comment_at(
            t,
            i - 1,
        ) by {
            assert(t[i - 1] == s[i]);
            assert(t[i] == s[i + 1]);
        }
        assert forall|i: int| 1 <= i && #[trigger] comment_at(t, i - 1) implies comment_at(
            s,
            i,
        ) by {
            assert(t[i - 1] == s[i]);
            assert(t[i] == s[i + 1]);
        }
        if find_comment(t) == -1 {
            assert forall|i: int| !comment_at(s, i) by {
                if 1 <= i {
                    assert(!comment_at(t, i - 1));
                }
            }
        } else {
            assert(comment_at(t, find_comment(t)));
            assert(comment_at(s, find_comment(s)));
            assert forall|i: int| 0 <= i < find_comment(s) implies !comment_at(s, i) by {
                if 1 <= i {
                    assert(!comment_at(t, i - 1));
                }
            }
        }
    }
}

/// `find_char` names the first occurrence of `c`.
proof fn lemma_find_char(s: Seq<char>, c: char)
    ensures
        find_char(s, c) >= -1,
        find_char(s, c) == -1 ==> forall|i: int| 0 <= i < s.len() ==> s[i] != c,
        find_char(s, c) >= 0 ==> find_char(s, c) < s.len() && s[find_char(s, c)] == c,
        find_char(s, c) >= 0 ==> forall|i: int| 0 <= i < find_char(s, c) ==> s[i] != c,
    decreases s.len(),
{
    if s.len() == 0 {
    } else if s[0] == c {
    } else {
        let t = s.subrange(1, s.len() as int);
        lemma_find_char(t, c);
        assert(forall|i: int| 1 <= i < s.len() ==> s[i] == #[trigger] t[i - 1]);
        if find_char(t, c) == -1 {
            assert forall|i: int| 0 <= i < s.len() implies s[i] != c by {
                if 1 <= i {
                    assert(t[i - 1] != c);
                }
            }
        } else {
            assert(s[find_char(s, c)] == t[find_char(t, c)]);
            assert forall|i: int| 0 <= i < find_char(s, c) implies s[i] != c by {
                if 1 <= i {
                    assert(t[i - 1] != c);
                }
            }
        }
    }
}

/// Trims leading and trailing whitespace.
fn trim_str(s: &String) -> (r: String)
    ensures
        r@ == trimmed(s@),
{
    let n = s.as_str().unicode_len();
    let mut lo: usize = 0;
    while lo < n && char_is_space(s.as_str().get_char(lo))
        invariant
            0 <= lo <= n,
            n == s@.len(),
            forall|j: int| 0 <= j < lo ==> is_space(s@[j]),
        decreases n - lo,
    {
        lo = lo + 1;
    }
    if lo == n {
        proof {
            lemma_trim_front_all_spaces(s@, lo as int);
            assert(trimmed(s@) =~= Seq::<char>::empty());
        }
        return String::new();
    }
    let mut hi: usize = n;
    while char_is_space(s.as_str().get_char(hi - 1))
        invariant
            lo < hi <= n,
            n == s@.len(),
            !is_space(s@[lo as int]),
            forall|j: int| hi <= j < n ==> is_space(s@[j]),
        decreases hi,
    {
        hi = hi - 1;
    }
    let r = s.as_str().substring_char(lo, hi).to_owned();
    proof {
        lemma_trim_front_at(s@, lo as int);
        let t = s@.subrange(lo as int, n as int);
        lemma_trim_back_at(t, (hi - lo) as int);
        assert(t.take((hi - lo) as int) =~= s@.subrange(lo as int, hi as int));
    }
    r
}

/// Character-level whitespace test.
fn char_is_space(c: char) -> (r: bool)
    ensures
        r == is_space(c),
{
    c == ' ' || c == '\t' || c == '\r' || c == '\n'
}

/// When the first `lo` characters are spaces and position `lo` is not,
/// `trim_front` drops exactly those `lo` characters.
proof fn lemma_trim_front_at(s: Seq<char>, lo: int)
    requires
        0 <= lo < s.len(),
        forall|j: int| 0 <= j < lo ==> is_space(s[j]),
        !is_space(s[lo]),
    ensures
        trim_front(s) == s.subrange(lo, s.len() as int),
    decreases lo,
{
    if lo == 0 {
        assert(trim_front(s) =~= s.subrange(0, s.len() as int));
    } else {
        let t = s.subrange(1, s.len() as int);
        lemma_trim_front_at(t, lo - 1);
        assert(t.subrange(lo - 1, t.len() as int) =~= s.subrange(lo, s.len() as int));
    }
}

/// A line of nothing but spaces trims to nothing.
proof fn lemma_trim_front_all_spaces(s: Seq<char>, n: int)
    requires
        n == s.len(),
        forall|j: int| 0 <= j < n ==> is_space(s[j]),
    ensures
        trim_front(s).len() == 0,
    decreases n,
{
    if n > 0 {
        let t = s.subrange(1, s.len() as int);
        lemma_trim_front_all_spaces(t, n - 1);
    }
}

/// When the characters from `hi` on are spaces and position `hi - 1` is
/// not, `trim_back` keeps exactly the first `hi` characters.
proof fn lemma_trim_back_at(s: Seq<char>, hi: int)
    requires
        0 < hi <= s.len(),
        forall|j: int| hi <= j < s.len() ==> is_space(s[j]),
        !is_space(s[hi - 1]),
    ensures
        trim_back(s) == s.take(hi),
    decreases s.len(),
{
    if hi == s.len() {
        assert(trim_back(s) =~= s.take(hi));
    } else {
        let t = s.drop_last();
        assert(forall|j: int| hi <= j < t.len() ==> t[j] == s[j]);
        lemma_trim_back_at(t, hi);
        assert(t.take(hi) =~= s.take(hi));
    }
}

/// The position of the first comment marker, by scan.
fn find_comment_idx(s: &String) -> (r: Option<usize>)
    ensures
        match r {
            Some(i) => find_comment(s@) == i as int,
            None => find_comment(s@) == -1,
        },
{
    proof {
        lemma_find_comment(s@);
    }
    let n = s.as_str().unicode_len();
    if n < 2 {
        return None;
    }
    let mut i: usize = 0;
    while i + 1 < n
        invariant
            0 <= i,
            i + 1 <= n,
            n == s@.len(),
            n >= 2,
            forall|j: int| 0 <= j < i ==> !comment_at(s@, j),
        decreases n - i,
    {
        if s.as_str().get_char(i) == '/' && s.as_str().get_char(i + 1) == '/' {
            proof {
                lemma_find_comment(s@);
                assert(comment_at(s@, i as int));
            }
            return Some(i);
        }
        i = i + 1;
    }
    proof {
        assert(forall|j: int| !comment_at(s@, j));
        if find_comment(s@) >= 0 {
            assert(comment_at(s@, find_comment(s@)));
        }
    }
    None
}

/// The position of the first `c`, by scan.
fn find_char_idx(s: &String, c: char) -> (r: Option<usize>)
    ensures
        match r {
            Some(i) => find_char(s@, c) == i as int,
            None => find_char(s@, c) == -1,
        },
{
    proof {
        lemma_find_char(s@, c);
    }
    let n = s.as_str().unicode_len();
    let mut i: usize = 0;
    while i < n
        invariant
            0 <= i <= n,
            n == s@.len(),
            forall|j: int| 0 <= j < i ==> s@[j] != c,
        decreases n - i,
    {
        if s.as_str().get_char(i) == c {
            proof {
                lemma_find_char(s@, c);
            }
            return Some(i);
        }
        i = i + 1;
    }
    proof {
        if find_char(s@, c) >= 0 {
            assert(s@[find_char(s@, c)] == c);
        }
    }
    None
}

/// A copy of the characters of `s` from `from` to `to`.
fn substring(s: &String, from: usize, to: usize) -> (r: String)
    requires
        from <= to <= s@.len(),
    ensures
        r@ == s@.subrange(from as int, to as int),
{
    s.as_str().substring_char(from, to).to_owned()
}

/// The kind of an instruction line.
#[derive(Debug, Clone, Copy, PartialEq, Eq, Structural)]
pub enum CommandType {
    Acommand,
    Ccommand,
    Lcommand,
}

/// Classification of an instruction line by its first character: `@` starts
/// an address instruction, `(` a label, anything else a computation.
pub open spec fn kind_of(s: Seq<char>) -> Option<CommandType> {
    if s.len() == 0 {
        None
    } else if s[0] == '@' {
        Some(CommandType::Acommand)
    } else if s[0] == '(' {
        Some(CommandType::Lcommand)
    } else {
        Some(CommandType::Ccommand)
    }
}

/// The symbol of an address instruction: the text after the leading `@`.
pub open spec fn a_symbol(s: Seq<char>) -> Seq<char> {
    s.subrange(1, s.len() as int)
}

/// A label line must close its parenthesis.
pub open spec fn label_wf(s: Seq<char>) -> bool {
    s.len() >= 2 && s.last() == ')'
}

/// The symbol of a label: the text between the parentheses.
pub open spec fn l_symbol(s: Seq<char>) -> Seq<char> {
    s.subrange(1, s.len() - 1)
}

/// The destination, computation and jump fields of a compute instruction.
/// The line is split at its first `=`; what follows is split at its first
/// `;`. A line with no usable separator has no fields: it is malformed.
pub open spec fn c_fields(s: Seq<char>) -> Option<
    (Option<Seq<char>>, Seq<char>, Option<Seq<char>>),
> {
    let eq = find_char(s, '=');
    let sc = find_char(s, ';');
    if eq == -1 && sc == -1 {
        None
    } else if eq == -1 {
        Some((None, s.take(sc), Some(s.subrange(sc + 1, s.len() as int))))
    } else if sc == -1 {
        Some((Some(s.take(eq)), s.subrange(eq + 1, s.len() as int), None))
    } else {
        let rest = s.subrange(eq + 1, s.len() as int);
        let rsc = find_char(rest, ';');
        if rsc == -1 {
            None
        } else {
            Some(
                (
                    Some(s.take(eq)),
                    rest.take(rsc),
                    Some(rest.subrange(rsc + 1, rest.len() as int)),
                ),
            )
        }
    }
}

/// Whether an instruction line parses without a malformed-instruction error.
pub open spec fn cmd_wf(s: Seq<char>) -> bool {
    match kind_of(s) {
        None => true,
        Some(CommandType::Acommand) => true,
        Some(CommandType::Lcommand) => label_wf(s),
        Some(CommandType::Ccommand) => c_fields(s) is Some,
    }
}

/// The symbol field after parsing an instruction line.
pub open spec fn parsed_symbol(s: Seq<char>) -> Option<Seq<char>>
    recommends
        cmd_wf(s),
{
    match kind_of(s) {
        Some(CommandType::Acommand) => Some(a_symbol(s)),
        Some(CommandType::Lcommand) => Some(l_symbol(s)),
        _ => None,
    }
}

/// The destination field after parsing an instruction line.
pub open spec fn parsed_dest(s: Seq<char>) -> Option<Seq<char>>
    recommends
        cmd_wf(s),
{
    if kind_of(s) == Some(CommandType::Ccommand) && c_fields(s) is Some {
        c_fields(s)->Some_0.0
    } else {
        None
    }
}

/// The computation field after parsing an instruction line.
pub open spec fn parsed_comp(s: Seq<char>) -> Option<Seq<char>>
    recommends
        cmd_wf(s),
{
    if kind_of(s) == Some(CommandType::Ccommand) && c_fields(s) is Some {
        Some(c_fields(s)->Some_0.1)
    } else {
        None
    }
}

/// The jump field after parsing an instruction line.
pub open spec fn parsed_jump(s: Seq<char>) -> Option<Seq<char>>
    recommends
        cmd_wf(s),
{
    if kind_of(s) == Some(CommandType::Ccommand) && c_fields(s) is Some {
        c_fields(s)->Some_0.2
    } else {
        None
    }
}

/// Walks the cleaned instruction lines one by one. `advance` classifies the
/// line at `index`, fills the field slots, and moves on; `init_index` rewinds
/// for the second pass.
pub struct Parser {
    pub has_more_commands: bool,
    pub commands: Vec<String>,
    pub index: usize,
    pub command_type: Option<CommandType>,
    pub symbol: Option<String>,
    pub dest: Option<String>,
    pub comp: Option<String>,
    pub jump: Option<String>,
}

impl Parser {
    /// The scan position lies inside the command list exactly when
    /// `has_more_commands` says so.
    pub open spec fn wf(&self) -> bool {
        &&& self.index <= self.commands@.len()
        &&& self.has_more_commands == (self.index < self.commands@.len())
    }

    /// The line the scan position rests on.
    pub open spec fn current(&self) -> Seq<char> {
        self.commands.deep_view()[self.index as int]
    }

    /// Builds a parser over the cleaned lines of a raw program.
    pub fn new(commands: Vec<String>) -> (r: Parser)
        ensures
            r.wf(),
            r.commands.deep_view() == clean_lines(commands.deep_view()),
            r.index == 0,
            r.command_type is None,
            r.symbol is None,
            r.dest is None,
            r.comp is None,
            r.jump is None,
    {
        let cleaned = Parser::remove_unnecessary_parts(commands);
        let has_more_commands = cleaned.len() > 0;
        Parser {
            commands: cleaned,
            index: 0,
            has_more_commands,
            symbol: None,
            dest: None,
            comp: None,
            jump: None,
            command_type: None,
        }
    }

    /// Rewinds the scan to the first instruction, for the second pass.
    pub fn init_index(&mut self)
        ensures
            final(self).wf(),
            final(self).commands == old(self).commands,
            final(self).index == 0,
            final(self).command_type is None,
            final(self).symbol == old(self).symbol,
            final(self).dest == old(self).dest,
            final(self).comp == old(self).comp,
            final(self).jump == old(self).jump,
    {
        self.index = 0;
        self.has_more_commands = self.commands.len() > self.index;
        self.command_type = None;
    }

    /// Empties the field slots before the next instruction is parsed.
    fn clear(&mut self)
        ensures
            final(self).symbol is None,
            final(self).dest is None,
            final(self).comp is None,
            final(self).jump is None,
            final(self).commands == old(self).commands,
            final(self).index == old(self).index,
            final(self).has_more_commands == old(self).has_more_commands,
            final(self).command_type == old(self).command_type,
    {
        self.symbol = None;
        self.dest = None;
        self.comp = None;
        self.jump = None;
    }

    /// Classifies and parses the line at the scan position, then steps past
    /// it. Without more commands this is a no-op.
    pub fn advance(&mut self) -> (r: Result<(), AsmError>)
        requires
            old(self).wf(),
        ensures
            final(self).wf(),
            final(self).commands == old(self).commands,
            !old(self).has_more_commands ==> r == Ok::<(), AsmError>(()) && *final(self)
                == *old(self),
            old(self).has_more_commands ==> {
                let cur = old(self).current();
                &&& final(self).command_type == kind_of(cur)
                &&& if cmd_wf(cur) {
                    &&& r == Ok::<(), AsmError>(())
                    &&& final(self).index == old(self).index + 1
                    &&& final(self).symbol.deep_view() == parsed_symbol(cur)
                    &&& final(self).dest.deep_view() == parsed_dest(cur)
                    &&& final(self).comp.deep_view() == parsed_comp(cur)
                    &&& final(self).jump.deep_view() == parsed_jump(cur)
                } else {
                    &&& r == Err::<(), AsmError>(AsmError::MalformedInstruction)
                    &&& final(self).index == old(self).index
                }
            },
    {
        if self.has_more_commands {
            let n = self.commands.len();
            self.clear();
            let command = self.commands[self.index].clone();
            let clen = command.as_str().unicode_len();
            if clen == 0 {
                self.command_type = None;
            } else {
                let flag = command.as_str().get_char(0);
                if flag == '@' {
                    self.command_type = Some(CommandType::Acommand);
                } else if flag == '(' {
                    self.command_type = Some(CommandType::Lcommand);
                } else {
                    self.command_type = Some(CommandType::Ccommand);
                }
            }
            self.parse()?;
            self.index = self.index + 1;
            self.has_more_commands = n > self.index;
        }
        Ok(())
    }

    /// Parses the line at the scan position into the field slots, according
    /// to the already-set command type.
    pub fn parse(&mut self) -> (r: Result<(), AsmError>)
        requires
            old(self).index < old(self).commands@.len(),
            match old(self).command_type {
                Some(t) => kind_of(old(self).current()) == Some(t),
                None => true,
            },
        ensures
            final(self).commands == old(self).commands,
            final(self).index == old(self).index,
            final(self).has_more_commands == old(self).has_more_commands,
            final(self).command_type == old(self).command_type,
            match old(self).command_type {
                None => r == Ok::<(), AsmError>(()) && *final(self) == *old(self),
                Some(CommandType::Acommand) => r == Ok::<(), AsmError>(())
                    && final(self).symbol.deep_view() == Some(a_symbol(old(self).current()))
                    && final(self).dest
                    == old(self).dest && final(self).comp == old(self).comp && final(self).jump
                    == old(self).jump,
                Some(CommandType::Lcommand) => if label_wf(old(self).current()) {
                    r == Ok::<(), AsmError>(()) && final(self).symbol.deep_view() == Some(
                        l_symbol(old(self).current()),
                    ) && final(self).dest == old(self).dest && final(self).comp == old(self).comp
                        && final(self).jump == old(self).jump
                } else {
                    r == Err::<(), AsmError>(AsmError::MalformedInstruction) && *final(self)
                        == *old(self)
                },
                Some(CommandType::Ccommand) => if c_fields(old(self).current()) is Some {
                    r == Ok::<(), AsmError>(()) && final(self).dest.deep_view() == c_fields(
                        old(self).current(),
                    )->Some_0.0 && final(self).comp.deep_view() == Some(
                        c_fields(old(self).current())->Some_0.1,
                    ) && final(self).jump.deep_view() == c_fields(old(self).current())->Some_0.2
                        && final(self).symbol == old(self).symbol
                } else {
                    r == Err::<(), AsmError>(AsmError::MalformedInstruction) && *final(self)
                        == *old(self)
                },
            },
    {
        let command = self.commands[self.index].clone();
        match self.command_type {
            Some(CommandType::Acommand) => {
                let sym = self.parse_a(&command);
                self.symbol = Some(sym);
                Ok(())
            },
            Some(CommandType::Lcommand) => {
                match self.parse_l(&command) {
                    Ok(sym) => {
                        self.symbol = Some(sym);
                        Ok(())
                    },
                    Err(e) => Err(e),
                }
            },
            Some(CommandType::Ccommand) => {
                match self.parse_c(&command) {
                    Ok((dest, comp, jump)) => {
                        self.dest = dest;
                        self.comp = comp;
                        self.jump = jump;
                        Ok(())
                    },
                    Err(e) => Err(e),
                }
            },
            None => Ok(()),
        }
    }

    /// The symbol of an address instruction: the text after the leading `@`.
    pub fn parse_a(&self, command: &String) -> (r: String)
        requires
            command@.len() > 0,
            command@[0] == '@',
        ensures
            r@ == a_symbol(command@),
    {
        let n = command.as_str().unicode_len();
        substring(command, 1, n)
    }

    /// The symbol of a label: the text between the parentheses. A label
    /// that never closes its parenthesis is malformed.
    pub fn parse_l(&self, command: &String) -> (r: Result<String, AsmError>)
        requires
            command@.len() > 0,
            command@[0] == '(',
        ensures
            label_wf(command@) ==> (r matches Ok(s) && s@ == l_symbol(command@)),
            !label_wf(command@) ==> r == Err::<String, AsmError>(AsmError::MalformedInstruction),
    {
        let n = command.as_str().unicode_len();
        if n < 2 {
            return Err(AsmError::MalformedInstruction);
        }
        if command.as_str().get_char(n - 1) != ')' {
            return Err(AsmError::MalformedInstruction);
        }
        Ok(substring(command, 1, n - 1))
    }

    /// Splits a compute instruction into its fields, dispatching on which
    /// separators the line holds.
    pub fn parse_c(&self, command: &String) -> (r: Result<
        (Option<String>, Option<String>, Option<String>),
        AsmError,
    >)
        ensures
            c_fields(command@) is Some ==> (r matches Ok(t) && t.deep_view() == (
                c_fields(command@)->Some_0.0,
                Some(c_fields(command@)->Some_0.1),
                c_fields(command@)->Some_0.2,
            )),
            c_fields(command@) is None ==> r == Err::<
                (Option<String>, Option<String>, Option<String>),
                AsmError,
            >(AsmError::MalformedInstruction),
    {
        proof {
            lemma_find_char(command@, '=');
            lemma_find_char(command@, ';');
            lemma_find_char(
                command@.subrange(find_char(command@, '=') + 1, command@.len() as int),
                ';',
            );
        }
        let has_semi = find_char_idx(command, ';');
        if has_semi.is_none() {
            self.parse_c_without_semi_colon(command)
        } else {
            let has_eq = find_char_idx(command, '=');
            if has_eq.is_none() {
                self.parse_c_without_equal(command)
            } else {
                self.parse_c_with_both(command)
            }
        }
    }

    /// Splits at the first `=`: destination, then computation; no jump.
    pub fn parse_c_without_semi_colon(&self, command: &String) -> (r: Result<
        (Option<String>, Option<String>, Option<String>),
        AsmError,
    >)
        ensures
            find_char(command@, '=') >= 0 ==> (r matches Ok(t) && t.deep_view() == (
                Some(command@.take(find_char(command@, '='))),
                Some(command@.subrange(find_char(command@, '=') + 1, command@.len() as int)),
                None::<Seq<char>>,
            )),
            find_char(command@, '=') < 0 ==> r == Err::<
                (Option<String>, Option<String>, Option<String>),
                AsmError,
            >(AsmError::MalformedInstruction),
    {
        proof {
            lemma_find_char(command@, '=');
        }
        let n = command.as_str().unicode_len();
        match find_char_idx(command, '=') {
            None => Err(AsmError::MalformedInstruction),
            Some(i) => {
                let dest = substring(command, 0, i);
                let comp = substring(command, i + 1, n);
                proof {
                    assert(dest@ =~= command@.take(i as int));
                }
                Ok((Some(dest), Some(comp), None))
            },
        }
    }

    /// Splits at the first `;`: computation, then jump; no destination.
    pub fn parse_c_without_equal(&self, command: &String) -> (r: Result<
        (Option<String>, Option<String>, Option<String>),
        AsmError,
    >)
        ensures
            find_char(command@, ';') >= 0 ==> (r matches Ok(t) && t.deep_view() == (
                None::<Seq<char>>,
                Some(command@.take(find_char(command@, ';'))),
                Some(command@.subrange(find_char(command@, ';') + 1, command@.len() as int)),
            )),
            find_char(command@, ';') < 0 ==> r == Err::<
                (Option<String>, Option<String>, Option<String>),
                AsmError,
            >(AsmError::MalformedInstruction),
    {
        proof {
            lemma_find_char(command@, ';');
        }
        let n = command.as_str().unicode_len();
        match find_char_idx(command, ';') {
            None => Err(AsmError::MalformedInstruction),
            Some(i) => {
                let comp = substring(command, 0, i);
                let jump = substring(command, i + 1, n);
                proof {
                    assert(comp@ =~= command@.take(i as int));
                }
                Ok((None, Some(comp), Some(jump)))
            },
        }
    }

    /// Splits at the first `=` and then at the first `;` of what follows:
    /// destination, computation and jump.
    pub fn parse_c_with_both(&self, command: &String) -> (r: Result<
        (Option<String>, Option<String>, Option<String>),
        AsmError,
    >)
        ensures
            ({
                let eq = find_char(command@, '=');
                let rest = command@.subrange(eq + 1, command@.len() as int);
                &&& eq >= 0 && find_char(rest, ';') >= 0 ==> (r matches Ok(t) && t.deep_view()
                    == (
                    Some(command@.take(eq)),
                    Some(rest.take(find_char(rest, ';'))),
                    Some(rest.subrange(find_char(rest, ';') + 1, rest.len() as int)),
                ))
                &&& !(eq >= 0 && find_char(rest, ';') >= 0) ==> r == Err::<
                    (Option<String>, Option<String>, Option<String>),
                    AsmError,
                >(AsmError::MalformedInstruction)
            }),
    {
        proof {
            lemma_find_char(command@, '=');
        }
        let n = command.as_str().unicode_len();
        match find_char_idx(command, '=') {
            None => Err(AsmError::MalformedInstruction),
            Some(i) => {
                let dest = substring(command, 0, i);
                let rest = substring(command, i + 1, n);
                proof {
                    lemma_find_char(rest@, ';');
                    assert(dest@ =~= command@.take(i as int));
                }
                let rn = rest.as_str().unicode_len();
                match find_char_idx(&rest, ';') {
                    None => Err(AsmError::MalformedInstruction),
                    Some(j) => {
                        let comp = substring(&rest, 0, j);
                        let jump = substring(&rest, j + 1, rn);
                        proof {
                            assert(comp@ =~= rest@.take(j as int));
                        }
                        Ok((Some(dest), Some(comp), Some(jump)))
                    },
                }
            },
        }
    }

    /// Strips a trailing comment and trims the remainder.
    pub fn remove_comments(command: String) -> (r: String)
        ensures
            r@ == clean_line(command@),
    {
        proof {
            lemma_find_comment(command@);
        }
        match find_comment_idx(&command) {
            Some(i) => {
                let prefix = substring(&command, 0, i);
                proof {
                    assert(prefix@ =~= command@.take(i as int));
                }
                trim_str(&prefix)
            },
            None => trim_str(&command),
        }
    }

    /// Drops blank and comment-only lines; strips and trims the rest.
    pub fn remove_unnecessary_parts(original_commands: Vec<String>) -> (r: Vec<String>)
        ensures
            r.deep_view() == clean_lines(original_commands.deep_view()),
    {
        let mut new_commands: Vec<String> = Vec::new();
        let n = original_commands.len();
        let mut i: usize = 0;
        while i < n
            invariant
                0 <= i <= n,
                n == original_commands@.len(),
                new_commands.deep_view() == clean_lines(original_commands.deep_view().take(i as int)),
            decreases n - i,
        {
            let command = original_commands[i].clone();
            let ghost prev = new_commands.deep_view();
            let t = trim_str(&command);
            let tlen = t.as_str().unicode_len();
            if tlen > 0 && t.as_str().get_char(0) != '/' {
                let cleaned = Parser::remove_comments(command);
                new_commands.push(cleaned);
                proof {
                    assert(new_commands.deep_view() =~= prev.push(clean_line(
                        original_commands.deep_view()[i as int],
                    )));
                }
            }
            proof {
                let dv = original_commands.deep_view();
                assert(dv.take(i + 1).drop_last() =~= dv.take(i as int));
                assert(dv.take(i + 1).last() == dv[i as int]);
            }
            i = i + 1;
        }
        proof {
            assert(original_commands.deep_view().take(n as int) =~= original_commands.deep_view());
        }
        new_commands
    }
}


} // verus!
