//! Reading a recipe: a two-state machine over the lines of the text.
use vstd::prelude::*;
use crate::model::{
    fresh_target, targets_view, strings_view, uses_view, OptionsModel, Recipe, ReadState, Target,
    TargetModel, TargetType, Use,
};
use crate::text::{chars_of, line_end, lines_of, span_is, span_text, spans_text, tokenize, tokens_of};

verus! {

/// What went wrong on a line of a recipe, or in finding and opening its file.
#[derive(Copy, Clone, Debug, PartialEq, Eq, Structural)]
pub enum ErrorKind {
    FileNotFound,
    FileUnreadable,
    MissingIdentifier,
    UnknownDeclarationKeyword,
    UnknownLibraryKind,
    MissingLibraryKind,
    UnexpectedTrailingToken,
    UnknownOptionKeyword,
    DuplicateFileEntry,
    DuplicateLibraryUse,
    MissingUseArguments,
}

/// The first error of a read: its line (counted from 1), its kind, and the token
/// it is about (empty where a token is missing).
#[derive(Clone, Debug, PartialEq, Eq)]
pub struct ParseError {
    pub line: usize,
    pub kind: ErrorKind,
    pub token: String,
}

pub struct ErrorModel {
    pub line: nat,
    pub kind: ErrorKind,
    pub token: Seq<char>,
}

impl View for ParseError {
    type V = ErrorModel;

    open spec fn view(&self) -> ErrorModel {
        ErrorModel { line: self.line as nat, kind: self.kind, token: self.token@ }
    }
}

/// The reader between two lines: the targets finished so far, the state, and
/// the target being built.
pub struct Machine {
    pub done: Seq<TargetModel>,
    pub state: ReadState,
    pub cur: TargetModel,
}

pub open spec fn start_machine() -> Machine {
    Machine { done: seq![], state: ReadState::Start, cur: fresh_target() }
}

pub open spec fn error_at(line: nat, kind: ErrorKind, token: Seq<char>) -> ErrorModel {
    ErrorModel { line, kind, token }
}

/// A line whose first character is `#`.
pub open spec fn is_comment(line: Seq<char>) -> bool {
    line.len() > 0 && line[0] == '#'
}

/// A declaration line `executable NAME` or `lib NAME shared|static`, read
/// into the fresh target `cur`.
pub open spec fn declare(cur: TargetModel, toks: Seq<Seq<char>>, n: nat) -> Result<TargetModel, ErrorModel> {
    if toks[0] == "executable"@ {
        if toks.len() < 2 {
            Err(error_at(n, ErrorKind::MissingIdentifier, seq![]))
        } else if toks.len() > 2 {
            Err(error_at(n, ErrorKind::UnexpectedTrailingToken, toks[2]))
        } else {
            Ok(TargetModel { name: toks[1], kind: TargetType::Executable, ..cur })
        }
    } else if toks[0] == "lib"@ {
        if toks.len() < 2 {
            Err(error_at(n, ErrorKind::MissingIdentifier, seq![]))
        } else if toks.len() < 3 {
            Err(error_at(n, ErrorKind::MissingLibraryKind, seq![]))
        } else if toks[2] != "shared"@ && toks[2] != "static"@ {
            Err(error_at(n, ErrorKind::UnknownLibraryKind, toks[2]))
        } else if toks.len() > 3 {
            Err(error_at(n, ErrorKind::UnexpectedTrailingToken, toks[3]))
        } else {
            let kind = if toks[2] == "shared"@ { TargetType::SharedLib } else { TargetType::StaticLib };
            Ok(TargetModel { name: toks[1], kind, ..cur })
        }
    } else {
        Err(error_at(n, ErrorKind::UnknownDeclarationKeyword, toks[0]))
    }
}

/// The option keywords that switch a flag on.
pub open spec fn is_flag_keyword(w: Seq<char>) -> bool {
    ||| w == "$refs"@
    ||| w == "$deps"@
    ||| w == "$nolibc"@
    ||| w == "$generate-ir"@
    ||| w == "$generate-c"@
}

/// `o` with the flag of keyword `w` switched on.
pub open spec fn set_flag(o: OptionsModel, w: Seq<char>) -> OptionsModel {
    if w == "$refs"@ {
        OptionsModel { refs: true, ..o }
    } else if w == "$deps"@ {
        OptionsModel { deps: true, ..o }
    } else if w == "$nolibc"@ {
        OptionsModel { nolibc: true, ..o }
    } else if w == "$generate-ir"@ {
        OptionsModel { generate_ir: true, ..o }
    } else {
        OptionsModel { generate_c: true, ..o }
    }
}

pub open spec fn with_options(t: TargetModel, o: OptionsModel) -> TargetModel {
    TargetModel { options: o, ..t }
}

/// The linkage that a `$use` line's kind word names.
pub open spec fn use_of_word(w: Seq<char>) -> Use {
    if w == "static"@ { Use::Static } else { Use::Dynamic }
}

/// A line of a target's body other than `end`: an option line or a file line,
/// read into the target `cur`.
pub open spec fn body_line(cur: TargetModel, toks: Seq<Seq<char>>, n: nat) -> Result<TargetModel, ErrorModel> {
    let w = toks[0];
    let o = cur.options;
    if is_flag_keyword(w) {
        if toks.len() > 1 {
            Err(error_at(n, ErrorKind::UnexpectedTrailingToken, toks[1]))
        } else {
            Ok(with_options(cur, set_flag(o, w)))
        }
    } else if w == "$warnings"@ {
        Ok(with_options(cur, OptionsModel { warnings: o.warnings + toks.skip(1), ..o }))
    } else if w == "$export"@ {
        Ok(with_options(cur, OptionsModel { export: o.export + toks.skip(1), ..o }))
    } else if w == "$config"@ {
        Ok(with_options(cur, OptionsModel { config: o.config + toks.skip(1), ..o }))
    } else if w == "$use"@ {
        if toks.len() < 2 {
            Err(error_at(n, ErrorKind::MissingUseArguments, seq![]))
        } else if toks.len() < 3 {
            Err(error_at(n, ErrorKind::MissingUseArguments, toks[1]))
        } else if toks[2] != "static"@ && toks[2] != "dynamic"@ {
            Err(error_at(n, ErrorKind::UnknownLibraryKind, toks[2]))
        } else if o.lib_use.contains((toks[1], use_of_word(toks[2]))) {
            Err(error_at(n, ErrorKind::DuplicateLibraryUse, toks[1]))
        } else {
            Ok(with_options(cur, OptionsModel { lib_use: o.lib_use.push((toks[1], use_of_word(toks[2]))), ..o }))
        }
    } else if w[0] == '$' {
        Err(error_at(n, ErrorKind::UnknownOptionKeyword, w))
    } else if cur.files.contains(w) {
        Err(error_at(n, ErrorKind::DuplicateFileEntry, w))
    } else {
        Ok(TargetModel { files: cur.files.push(w), ..cur })
    }
}

/// A line with tokens `toks`, numbered `n`, read by the machine `m`.
pub open spec fn dispatch(m: Machine, toks: Seq<Seq<char>>, n: nat) -> Result<Machine, ErrorModel> {
    if m.state == ReadState::Start {
        match declare(m.cur, toks, n) {
            Ok(t) => Ok(Machine { state: ReadState::InsideTarget, cur: t, ..m }),
            Err(e) => Err(e),
        }
    } else if toks[0] == "end"@ {
        if toks.len() > 1 {
            Err(error_at(n, ErrorKind::UnexpectedTrailingToken, toks[1]))
        } else {
            Ok(Machine { done: m.done.push(m.cur), state: ReadState::Start, cur: fresh_target() })
        }
    } else {
        match body_line(m.cur, toks, n) {
            Ok(t) => Ok(Machine { cur: t, ..m }),
            Err(e) => Err(e),
        }
    }
}

/// One line, numbered `n`, read by the machine `m`: comments and blank lines
/// change nothing.
pub open spec fn step(m: Machine, line: Seq<char>, n: nat) -> Result<Machine, ErrorModel> {
    let toks = tokens_of(line);
    if is_comment(line) || toks.len() == 0 {
        Ok(m)
    } else {
        dispatch(m, toks, n)
    }
}

/// The machine `m` reading `lines`, the first numbered `first`: where it stops,
/// and the error that stopped it, if one did.
pub open spec fn run(m: Machine, lines: Seq<Seq<char>>, first: nat) -> (Machine, Option<ErrorModel>)
    decreases lines.len(),
{
    if lines.len() == 0 {
        (m, None)
    } else {
        let (m1, e) = run(m, lines.drop_last(), first);
        if e is Some {
            (m1, e)
        } else {
            match step(m1, lines.last(), (first + lines.len() - 1) as nat) {
                Ok(m2) => (m2, None),
                Err(er) => (m1, Some(er)),
            }
        }
    }
}

/// Reading the text `s` from its first line: the targets finished before the
/// end or the first error, and that error.
pub open spec fn parse_text(s: Seq<char>) -> (Machine, Option<ErrorModel>) {
    run(start_machine(), lines_of(s), 1)
}

/// The reader's own invariant: finished targets are well formed, the target
/// being built holds no file or library use twice, and has a real kind once
/// declared.
pub open spec fn machine_wf(m: Machine) -> bool {
    &&& forall|i: int| 0 <= i < m.done.len() ==> (#[trigger] m.done[i]).wf()
    &&& m.cur.files.no_duplicates()
    &&& m.cur.options.lib_use.no_duplicates()
    &&& m.state == ReadState::InsideTarget ==> m.cur.kind != TargetType::Temporary
}

proof fn lemma_push_no_duplicates<A>(s: Seq<A>, a: A)
    requires
        s.no_duplicates(),
        !s.contains(a),
    ensures
        s.push(a).no_duplicates(),
{
    assert forall|i: int, j: int| 0 <= i < s.len() + 1 && 0 <= j < s.len() + 1 && i != j
        implies s.push(a)[i] != s.push(a)[j] by {
        if i == s.len() {
            assert(s[j] != a);
        } else if j == s.len() {
            assert(s[i] != a);
        }
    }
}

proof fn lemma_step_wf(m: Machine, line: Seq<char>, n: nat)
    requires
        machine_wf(m),
    ensures
        step(m, line, n) matches Ok(m2) ==> machine_wf(m2),
{
    let toks = tokens_of(line);
    if !(is_comment(line) || toks.len() == 0) && m.state == ReadState::InsideTarget {
        if toks[0] == "end"@ {
            if toks.len() <= 1 {
                let m2 = Machine { done: m.done.push(m.cur), state: ReadState::Start, cur: fresh_target() };
                assert forall|i: int| 0 <= i < m2.done.len() implies (#[trigger] m2.done[i]).wf() by {
                    if i < m.done.len() {
                        assert(m2.done[i] == m.done[i]);
                    }
                }
                assert(fresh_target().files.no_duplicates());
                assert(fresh_target().options.lib_use.no_duplicates());
            }
        } else {
            let w = toks[0];
            let o = m.cur.options;
            if w == "$use"@ && toks.len() >= 3 && (toks[2] == "static"@ || toks[2] == "dynamic"@)
                && !o.lib_use.contains((toks[1], use_of_word(toks[2]))) {
                lemma_push_no_duplicates(o.lib_use, (toks[1], use_of_word(toks[2])));
            }
            if !is_flag_keyword(w) && w != "$warnings"@ && w != "$export"@ && w != "$config"@ && w != "$use"@
                && w[0] != '$' && !m.cur.files.contains(w) {
                lemma_push_no_duplicates(m.cur.files, w);
            }
        }
    }
}

/// Every machine that a run passes through keeps the reader's invariant.
pub proof fn lemma_run_wf(m: Machine, lines: Seq<Seq<char>>, first: nat)
    requires
        machine_wf(m),
    ensures
        machine_wf(run(m, lines, first).0),
    decreases lines.len(),
{
    if lines.len() > 0 {
        lemma_run_wf(m, lines.drop_last(), first);
        let (m1, e) = run(m, lines.drop_last(), first);
        if e is None {
            lemma_step_wf(m1, lines.last(), (first + lines.len() - 1) as nat);
        }
    }
}

/// Once a run has stopped on an error, the lines after it change nothing.
pub proof fn lemma_run_stops(m: Machine, lines: Seq<Seq<char>>, first: nat, k: int)
    requires
        0 <= k <= lines.len(),
        run(m, lines.take(k), first).1 is Some,
    ensures
        run(m, lines, first) == run(m, lines.take(k), first),
    decreases lines.len(),
{
    if k < lines.len() {
        assert(lines.drop_last().take(k) =~= lines.take(k));
        lemma_run_stops(m, lines.drop_last(), first, k);
    } else {
        assert(lines.take(k) =~= lines);
    }
}

/// Spans that each cover at least one character of `c`.
pub open spec fn spans_within(c: Seq<char>, v: Seq<(usize, usize)>) -> bool {
    forall|k: int| 0 <= k < v.len() ==> (#[trigger] v[k]).0 < v[k].1 <= c.len()
}

/// The characters that the span `sp` of `c` covers, as a string.
fn token_string(c: &Vec<char>, text: &str, sp: (usize, usize)) -> (r: String)
    requires
        c@ == text@,
        sp.0 <= sp.1 <= c@.len(),
    ensures
        r@ == span_text(c@, sp),
{
    String::from_str(text.substring_char(sp.0, sp.1))
}

fn contains_string(v: &Vec<String>, s: &String) -> (r: bool)
    ensures
        r == strings_view(v@).contains(s@),
{
    let mut i: usize = 0;
    while i < v.len()
        invariant
            i <= v@.len(),
            forall|k: int| 0 <= k < i ==> v@[k]@ != s@,
        decreases v@.len() - i,
    {
        if v[i] == *s {
            assert(strings_view(v@)[i as int] == s@);
            return true;
        }
        i = i + 1;
    }
    assert(!strings_view(v@).contains(s@)) by {
        if strings_view(v@).contains(s@) {
            let k = choose|k: int| 0 <= k < strings_view(v@).len() && strings_view(v@)[k] == s@;
            assert(v@[k]@ == s@);
        }
    }
    false
}

fn contains_use(v: &Vec<(String, Use)>, name: &String, u: Use) -> (r: bool)
    ensures
        r == uses_view(v@).contains((name@, u)),
{
    let mut i: usize = 0;
    while i < v.len()
        invariant
            i <= v@.len(),
            forall|k: int| 0 <= k < i ==> (v@[k].0@, v@[k].1) != (name@, u),
        decreases v@.len() - i,
    {
        if v[i].0 == *name && v[i].1 == u {
            assert(uses_view(v@)[i as int] == (name@, u));
            return true;
        }
        i = i + 1;
    }
    assert(!uses_view(v@).contains((name@, u))) by {
        if uses_view(v@).contains((name@, u)) {
            let k = choose|k: int| 0 <= k < uses_view(v@).len() && uses_view(v@)[k] == (name@, u);
            assert((v@[k].0@, v@[k].1) == (name@, u));
        }
    }
    false
}

/// Appends every token after the first to `v`.
fn append_rest(c: &Vec<char>, text: &str, toks: &Vec<(usize, usize)>, v: &mut Vec<String>)
    requires
        c@ == text@,
        toks@.len() > 0,
        spans_within(c@, toks@),
    ensures
        strings_view(final(v)@) == strings_view(old(v)@) + spans_text(c@, toks@).skip(1),
{
    let mut i: usize = 1;
    while i < toks.len()
        invariant
            c@ == text@,
            1 <= i <= toks@.len(),
            spans_within(c@, toks@),
            strings_view(v@) == strings_view(old(v)@) + spans_text(c@, toks@).subrange(1, i as int),
        decreases toks@.len() - i,
    {
        let ghost before = v@;
        let s = token_string(c, text, toks[i]);
        v.push(s);
        assert(strings_view(v@) =~= strings_view(before).push(s@));
        assert(spans_text(c@, toks@).subrange(1, i + 1) =~= spans_text(c@, toks@).subrange(1, i as int).push(s@));
        i = i + 1;
    }
    assert(spans_text(c@, toks@).subrange(1, i as int) =~= spans_text(c@, toks@).skip(1));
}

fn fail(n: usize, kind: ErrorKind, token: String) -> (r: Result<(), ParseError>)
    ensures
        r matches Err(e) && e@ == error_at(n as nat, kind, token@),
{
    Err(ParseError { line: n, kind, token })
}

/// Reads a declaration line into `target`.
fn declare_line(c: &Vec<char>, text: &str, toks: &Vec<(usize, usize)>, n: usize, target: &mut Target) -> (r: Result<(), ParseError>)
    requires
        c@ == text@,
        toks@.len() > 0,
        spans_within(c@, toks@),
    ensures
        match declare(old(target)@, spans_text(c@, toks@), n as nat) {
            Ok(t) => r is Ok && final(target)@ == t,
            Err(e) => r matches Err(er) && er@ == e,
        },
{
    let ghost ts = spans_text(c@, toks@);
    let len = toks.len();
    if span_is(c, toks[0], "executable") {
        if len < 2 {
            return fail(n, ErrorKind::MissingIdentifier, String::new());
        }
        if len > 2 {
            return fail(n, ErrorKind::UnexpectedTrailingToken, token_string(c, text, toks[2]));
        }
        target.name = token_string(c, text, toks[1]);
        target.kind = TargetType::Executable;
        Ok(())
    } else if span_is(c, toks[0], "lib") {
        if len < 2 {
            return fail(n, ErrorKind::MissingIdentifier, String::new());
        }
        if len < 3 {
            return fail(n, ErrorKind::MissingLibraryKind, String::new());
        }
        let kind = if span_is(c, toks[2], "shared") {
            TargetType::SharedLib
        } else if span_is(c, toks[2], "static") {
            TargetType::StaticLib
        } else {
            return fail(n, ErrorKind::UnknownLibraryKind, token_string(c, text, toks[2]));
        };
        if len > 3 {
            return fail(n, ErrorKind::UnexpectedTrailingToken, token_string(c, text, toks[3]));
        }
        target.name = token_string(c, text, toks[1]);
        target.kind = kind;
        Ok(())
    } else {
        fail(n, ErrorKind::UnknownDeclarationKeyword, token_string(c, text, toks[0]))
    }
}

/// Reads an option line or a file line into `target`.
fn body_line_exec(c: &Vec<char>, text: &str, toks: &Vec<(usize, usize)>, n: usize, target: &mut Target) -> (r: Result<(), ParseError>)
    requires
        c@ == text@,
        toks@.len() > 0,
        spans_within(c@, toks@),
    ensures
        match body_line(old(target)@, spans_text(c@, toks@), n as nat) {
            Ok(t) => r is Ok && final(target)@ == t,
            Err(e) => r matches Err(er) && er@ == e,
        },
{
    let ghost ts = spans_text(c@, toks@);
    let len = toks.len();
    let w = toks[0];
    if span_is(c, w, "$refs") || span_is(c, w, "$deps") || span_is(c, w, "$nolibc")
        || span_is(c, w, "$generate-ir") || span_is(c, w, "$generate-c") {
        if len > 1 {
            return fail(n, ErrorKind::UnexpectedTrailingToken, token_string(c, text, toks[1]));
        }
        if span_is(c, w, "$refs") {
            target.options.refs = true;
        } else if span_is(c, w, "$deps") {
            target.options.deps = true;
        } else if span_is(c, w, "$nolibc") {
            target.options.nolibc = true;
        } else if span_is(c, w, "$generate-ir") {
            target.options.generate_ir = true;
        } else {
            target.options.generate_c = true;
        }
        Ok(())
    } else if span_is(c, w, "$warnings") {
        append_rest(c, text, toks, &mut target.options.warnings);
        Ok(())
    } else if span_is(c, w, "$export") {
        append_rest(c, text, toks, &mut target.options.export);
        Ok(())
    } else if span_is(c, w, "$config") {
        append_rest(c, text, toks, &mut target.options.config);
        Ok(())
    } else if span_is(c, w, "$use") {
        if len < 2 {
            return fail(n, ErrorKind::MissingUseArguments, String::new());
        }
        if len < 3 {
            return fail(n, ErrorKind::MissingUseArguments, token_string(c, text, toks[1]));
        }
        let u = if span_is(c, toks[2], "static") {
            Use::Static
        } else if span_is(c, toks[2], "dynamic") {
            Use::Dynamic
        } else {
            return fail(n, ErrorKind::UnknownLibraryKind, token_string(c, text, toks[2]));
        };
        let name = token_string(c, text, toks[1]);
        if contains_use(&target.options.lib_use, &name, u) {
            return fail(n, ErrorKind::DuplicateLibraryUse, name);
        }
        let ghost before = target.options.lib_use@;
        let ghost entry = (name@, u);
        target.options.lib_use.push((name, u));
        assert(uses_view(target.options.lib_use@) =~= uses_view(before).push(entry));
        Ok(())
    } else if c[w.0] == '$' {
        fail(n, ErrorKind::UnknownOptionKeyword, token_string(c, text, w))
    } else {
        let f = token_string(c, text, w);
        if contains_string(&target.files, &f) {
            return fail(n, ErrorKind::DuplicateFileEntry, f);
        }
        let ghost before = target.files@;
        let ghost fv = f@;
        target.files.push(f);
        assert(strings_view(target.files@) =~= strings_view(before).push(fv));
        Ok(())
    }
}

/// Reads a line with tokens `toks` in state `state`; `done` receives the target
/// that an `end` line finishes.
fn dispatch_exec(
    c: &Vec<char>,
    text: &str,
    toks: &Vec<(usize, usize)>,
    n: usize,
    state: &mut ReadState,
    target: &mut Target,
    done: &mut Vec<Target>,
) -> (r: Result<(), ParseError>)
    requires
        c@ == text@,
        toks@.len() > 0,
        spans_within(c@, toks@),
    ensures
        ({
            let m = Machine { done: targets_view(old(done)@), state: *old(state), cur: old(target)@ };
            match dispatch(m, spans_text(c@, toks@), n as nat) {
                Ok(m2) => r is Ok && targets_view(final(done)@) == m2.done && *final(state) == m2.state
                    && final(target)@ == m2.cur,
                Err(e) => r matches Err(er) && er@ == e && final(done)@ == old(done)@,
            }
        }),
{
    match *state {
        ReadState::Start => {
            let r = declare_line(c, text, toks, n, target);
            if r.is_ok() {
                *state = ReadState::InsideTarget;
            }
            r
        },
        ReadState::InsideTarget => {
            if span_is(c, toks[0], "end") {
                if toks.len() > 1 {
                    return fail(n, ErrorKind::UnexpectedTrailingToken, token_string(c, text, toks[1]));
                }
                let ghost before = done@;
                let mut finished = Target::new();
                std::mem::swap(target, &mut finished);
                let ghost fv = finished@;
                done.push(finished);
                assert(targets_view(done@) =~= targets_view(before).push(fv));
                *state = ReadState::Start;
                Ok(())
            } else {
                body_line_exec(c, text, toks, n, target)
            }
        },
    }
}

impl Recipe {
    /// Appends the targets that a read finished.
    fn take_targets(&mut self, done: Vec<Target>)
        requires
            old(self)@.wf(),
            forall|i: int| 0 <= i < done@.len() ==> (#[trigger] targets_view(done@)[i]).wf(),
        ensures
            final(self)@.targets == old(self)@.targets + targets_view(done@),
            final(self)@.path == old(self)@.path,
            final(self)@.ok == old(self)@.ok,
            final(self)@.wf(),
    {
        let ghost before = self.targets@;
        let mut done = done;
        let ghost added = done@;
        self.targets.append(&mut done);
        self.target_count = self.targets.len() as u64;
        assert(targets_view(self.targets@) =~= targets_view(before) + targets_view(added));
    }

    /// Reads the recipe text `text`, appending each target that an `end` line
    /// finishes, up to the first error. `ok` tells whether the whole text was read.
    pub fn read(&mut self, text: &str) -> (r: Result<(), ParseError>)
        requires
            old(self)@.wf(),
        ensures
            ({
                let (m, e) = parse_text(text@);
                &&& final(self)@.targets == old(self)@.targets + m.done
                &&& final(self)@.path == old(self)@.path
                &&& final(self)@.ok == (e is None)
                &&& final(self)@.wf()
                &&& match e {
                    None => r is Ok,
                    Some(err) => r matches Err(er) && er@ == err,
                }
            }),
    {
        self.ok = false;
        let c = chars_of(text);
        let ghost lines = lines_of(c@);
        let mut state = ReadState::Start;
        let mut target = Target::new();
        let mut done: Vec<Target> = Vec::new();
        let mut p: usize = 0;
        let mut count: usize = 0;
        assert(c@.skip(0) =~= c@);
        assert(lines.take(0) =~= seq![]);
        assert(targets_view(done@) =~= seq![]);
        assert(fresh_target().files.no_duplicates());
        assert(fresh_target().options.lib_use.no_duplicates());
        loop
            invariant
                c@ == text@,
                lines == lines_of(c@),
                p <= c@.len(),
                count <= p,
                count < lines.len(),
                lines_of(c@.skip(p as int)) == lines.skip(count as int),
                run(start_machine(), lines.take(count as int), 1)
                    == (Machine { done: targets_view(done@), state, cur: target@ }, None::<ErrorModel>),
                self.ok == false,
                self@.wf(),
                self@.targets == old(self)@.targets,
                self@.path == old(self)@.path,
                self@.target_count == old(self)@.target_count,
            decreases c@.len() - p,
        {
            let e = line_end(&c, p);
            let ghost rest = c@.skip(p as int);
            let ghost line = c@.subrange(p as int, e as int);
            proof {
                assert(rest.take(e - p) =~= line);
                if e < c@.len() {
                    assert(rest.skip(e - p + 1) =~= c@.skip(e + 1));
                    assert(lines_of(rest) == seq![line] + lines_of(c@.skip(e + 1)));
                    assert(lines.skip(count + 1) =~= lines.skip(count as int).drop_first());
                }
                assert(lines.skip(count as int)[0] == lines[count as int]);
                assert(lines[count as int] == line);
                assert(lines.take(count + 1).drop_last() =~= lines.take(count as int));
                assert(lines.take(count + 1).last() == line);
                lemma_run_wf(start_machine(), lines.take(count as int), 1);
            }
            if p < e && c[p] != '#' {
                let toks = tokenize(&c, p, e);
                if toks.len() > 0 {
                    let res = dispatch_exec(&c, text, &toks, count + 1, &mut state, &mut target, &mut done);
                    if res.is_err() {
                        proof {
                            lemma_run_stops(start_machine(), lines, 1, count + 1);
                        }
                        self.take_targets(done);
                        return res;
                    }
                }
            }
            if e == c.len() {
                proof {
                    assert(lines.take(count + 1) =~= lines);
                    lemma_run_wf(start_machine(), lines, 1);
                }
                self.take_targets(done);
                self.ok = true;
                return Ok(());
            }
            count = count + 1;
            p = e + 1;
        }
    }
}

} // verus!
