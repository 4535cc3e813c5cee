//! Writing a recipe back to text, one line per declaration, option and file.
use vstd::prelude::*;
use vstd::seq_lib::lemma_concat_associative;
use crate::model::{
    kind_word, strings_view, targets_view, use_word, uses_view, OptionsModel, Recipe, Target, TargetModel,
    TargetOptions, TargetType, Use,
};

verus! {

/// The words `ws` separated by single spaces.
pub open spec fn join(ws: Seq<Seq<char>>) -> Seq<char>
    decreases ws.len(),
{
    if ws.len() == 0 {
        seq![]
    } else if ws.len() == 1 {
        ws[0]
    } else {
        ws[0] + seq![' '] + join(ws.drop_first())
    }
}

/// A line: `indent`, then the words `ws` separated by single spaces.
pub open spec fn words_line(indent: Seq<char>, ws: Seq<Seq<char>>) -> Seq<char> {
    indent + join(ws)
}

pub open spec fn tab() -> Seq<char> {
    seq!['\t']
}

/// The lines `ls`, each followed by a line feed.
#[verifier::opaque]
pub open spec fn unlines(ls: Seq<Seq<char>>) -> Seq<char>
    decreases ls.len(),
{
    if ls.len() == 0 {
        seq![]
    } else {
        unlines(ls.drop_last()) + ls.last() + seq!['\n']
    }
}

/// The comment that opens a written recipe, and a blank line.
pub open spec fn header_lines() -> Seq<Seq<char>> {
    seq!["# this file is generated by recipe-reader, it might be overwritten"@, seq![]]
}

pub open spec fn decl_line(t: TargetModel) -> Seq<char> {
    if t.kind == TargetType::Executable {
        words_line(seq![], seq!["executable"@, t.name])
    } else {
        words_line(seq![], seq!["lib"@, t.name, kind_word(t.kind)])
    }
}

/// The line of a flag keyword, where the flag is on.
pub open spec fn flag_line(on: bool, kw: Seq<char>) -> Seq<Seq<char>> {
    if on { seq![words_line(tab(), seq![kw])] } else { seq![] }
}

/// The line of a list keyword with its items, where there are items.
pub open spec fn list_line(kw: Seq<char>, items: Seq<Seq<char>>) -> Seq<Seq<char>> {
    if items.len() == 0 { seq![] } else { seq![words_line(tab(), seq![kw] + items)] }
}

pub open spec fn use_line(p: (Seq<char>, Use)) -> Seq<char> {
    words_line(tab(), seq!["$use"@, p.0, use_word(p.1)])
}

pub open spec fn file_line(f: Seq<char>) -> Seq<char> {
    words_line(tab(), seq![f])
}

pub open spec fn use_lines(us: Seq<(Seq<char>, Use)>) -> Seq<Seq<char>> {
    us.map_values(|p: (Seq<char>, Use)| use_line(p))
}

pub open spec fn file_lines(fs: Seq<Seq<char>>) -> Seq<Seq<char>> {
    fs.map_values(|f: Seq<char>| file_line(f))
}

/// The option lines of a target, in their fixed order.
pub open spec fn option_lines(o: OptionsModel) -> Seq<Seq<char>> {
    flag_line(o.generate_c, "$generate-c"@)
        + flag_line(o.generate_ir, "$generate-ir"@)
        + flag_line(o.nolibc, "$nolibc"@)
        + flag_line(o.deps, "$deps"@)
        + flag_line(o.refs, "$refs"@)
        + list_line("$export"@, o.export)
        + list_line("$config"@, o.config)
        + list_line("$warnings"@, o.warnings)
        + use_lines(o.lib_use)
}

/// A target's lines: declaration, options, files, `end` and a blank line.
pub open spec fn target_lines(t: TargetModel) -> Seq<Seq<char>> {
    seq![decl_line(t)]
        + option_lines(t.options)
        + file_lines(t.files)
        + seq![words_line(seq![], seq!["end"@]), seq![]]
}

/// The lines of the targets `ts`, one after another.
pub open spec fn body_lines(ts: Seq<TargetModel>) -> Seq<Seq<char>>
    decreases ts.len(),
{
    if ts.len() == 0 {
        seq![]
    } else {
        body_lines(ts.drop_last()) + target_lines(ts.last())
    }
}

pub open spec fn recipe_lines(ts: Seq<TargetModel>) -> Seq<Seq<char>> {
    header_lines() + body_lines(ts)
}

/// The text of a recipe with the targets `ts`.
pub open spec fn serialize(ts: Seq<TargetModel>) -> Seq<char> {
    unlines(recipe_lines(ts))
}

pub proof fn lemma_unlines_concat(a: Seq<Seq<char>>, b: Seq<Seq<char>>)
    ensures
        unlines(a + b) == unlines(a) + unlines(b),
    decreases b.len(),
{
    reveal(unlines);
    if b.len() == 0 {
        assert(a + b =~= a);
        assert(unlines(a) + unlines(b) =~= unlines(a));
    } else {
        assert((a + b).drop_last() =~= a + b.drop_last());
        lemma_unlines_concat(a, b.drop_last());
        assert(unlines(a + b) =~= unlines(a) + unlines(b));
    }
}

pub proof fn lemma_join_push(ws: Seq<Seq<char>>, w: Seq<char>)
    requires
        ws.len() > 0,
    ensures
        join(ws.push(w)) == join(ws) + seq![' '] + w,
    decreases ws.len(),
{
    if ws.len() == 1 {
        assert(ws.push(w).drop_first() =~= seq![w]);
        assert(join(seq![w]) == w);
        assert(join(ws.push(w)) =~= join(ws) + seq![' '] + w);
    } else {
        assert(ws.push(w).drop_first() =~= ws.drop_first().push(w));
        lemma_join_push(ws.drop_first(), w);
        assert(join(ws.push(w)) =~= join(ws) + seq![' '] + w);
    }
}

/// Appends the line `line` and a line feed to `out`.
fn emit(out: &mut String, line: &String, Ghost(ls): Ghost<Seq<Seq<char>>>)
    requires
        old(out)@ == unlines(ls),
    ensures
        final(out)@ == unlines(ls.push(line@)),
{
    out.append(line.as_str());
    out.append("\n");
    proof {
        reveal_strlit("\n");
        reveal(unlines);
        assert(ls.push(line@).drop_last() =~= ls);
    }
    assert(final(out)@ =~= unlines(ls.push(line@)));
}

/// Appends a space and the word `w` to `line`.
fn add_word(line: &mut String, w: &str, Ghost(ws): Ghost<Seq<Seq<char>>>, Ghost(indent): Ghost<Seq<char>>)
    requires
        ws.len() > 0,
        old(line)@ == words_line(indent, ws),
    ensures
        final(line)@ == words_line(indent, ws.push(w@)),
{
    line.append(" ");
    line.append(w);
    proof {
        reveal_strlit(" ");
        lemma_join_push(ws, w@);
    }
    assert(final(line)@ =~= words_line(indent, ws.push(w@)));
}

/// Starts a line with `indent` and the word `w`.
fn first_word(indent: &str, w: &str) -> (r: String)
    ensures
        r@ == words_line(indent@, seq![w@]),
{
    let mut r = String::from_str(indent);
    r.append(w);
    r
}

fn write_flag(out: &mut String, on: bool, kw: &str, Ghost(ls): Ghost<Seq<Seq<char>>>)
    requires
        old(out)@ == unlines(ls),
    ensures
        final(out)@ == unlines(ls + flag_line(on, kw@)),
{
    if on {
        let line = first_word("\t", kw);
        proof {
            reveal_strlit("\t");
        }
        assert(line@ =~= words_line(tab(), seq![kw@]));
        emit(out, &line, Ghost(ls));
        assert(ls.push(line@) =~= ls + flag_line(on, kw@));
    } else {
        assert(ls + flag_line(on, kw@) =~= ls);
    }
}

fn write_list(out: &mut String, kw: &str, items: &Vec<String>, Ghost(ls): Ghost<Seq<Seq<char>>>)
    requires
        old(out)@ == unlines(ls),
    ensures
        final(out)@ == unlines(ls + list_line(kw@, strings_view(items@))),
{
    let ghost iv = strings_view(items@);
    if items.len() == 0 {
        assert(ls + list_line(kw@, iv) =~= ls);
        return;
    }
    let mut line = first_word("\t", kw);
    proof {
        reveal_strlit("\t");
    }
    assert(line@ =~= words_line(tab(), seq![kw@]));
    let mut i: usize = 0;
    while i < items.len()
        invariant
            i <= items@.len(),
            iv == strings_view(items@),
            line@ == words_line(tab(), seq![kw@] + iv.take(i as int)),
        decreases items@.len() - i,
    {
        add_word(&mut line, items[i].as_str(), Ghost(seq![kw@] + iv.take(i as int)), Ghost(tab()));
        assert(seq![kw@] + iv.take(i + 1) =~= (seq![kw@] + iv.take(i as int)).push(items@[i as int]@));
        i = i + 1;
    }
    assert(iv.take(i as int) =~= iv);
    emit(out, &line, Ghost(ls));
    assert(ls.push(line@) =~= ls + list_line(kw@, iv));
}

fn write_uses(out: &mut String, uses: &Vec<(String, Use)>, Ghost(ls): Ghost<Seq<Seq<char>>>)
    requires
        old(out)@ == unlines(ls),
    ensures
        final(out)@ == unlines(ls + use_lines(uses_view(uses@))),
{
    let mut i: usize = 0;
    assert(ls + use_lines(uses_view(uses@)).take(0) =~= ls);
    while i < uses.len()
        invariant
            i <= uses@.len(),
            out@ == unlines(ls + use_lines(uses_view(uses@)).take(i as int)),
        decreases uses@.len() - i,
    {
        let ghost before = ls + use_lines(uses_view(uses@)).take(i as int);
        let mut line = first_word("\t", "$use");
        proof {
            reveal_strlit("\t");
        }
        assert(line@ =~= words_line(tab(), seq!["$use"@]));
        let ghost w1 = seq!["$use"@];
        let ghost w2 = seq!["$use"@, uses@[i as int].0@];
        add_word(&mut line, uses[i].0.as_str(), Ghost(w1), Ghost(tab()));
        assert(w1.push(uses@[i as int].0@) =~= w2);
        let k = uses[i].1.to_string();
        add_word(&mut line, k.as_str(), Ghost(w2), Ghost(tab()));
        assert(seq!["$use"@, uses@[i as int].0@].push(k@) =~= seq!["$use"@, uses@[i as int].0@, k@]);
        emit(out, &line, Ghost(before));
        assert(before.push(line@) =~= ls + use_lines(uses_view(uses@)).take(i + 1));
        i = i + 1;
    }
    assert(use_lines(uses_view(uses@)).take(i as int) =~= use_lines(uses_view(uses@)));
}

fn write_files(out: &mut String, files: &Vec<String>, Ghost(ls): Ghost<Seq<Seq<char>>>)
    requires
        old(out)@ == unlines(ls),
    ensures
        final(out)@ == unlines(ls + file_lines(strings_view(files@))),
{
    let mut i: usize = 0;
    assert(ls + file_lines(strings_view(files@)).take(0) =~= ls);
    while i < files.len()
        invariant
            i <= files@.len(),
            out@ == unlines(ls + file_lines(strings_view(files@)).take(i as int)),
        decreases files@.len() - i,
    {
        let ghost before = ls + file_lines(strings_view(files@)).take(i as int);
        let line = first_word("\t", files[i].as_str());
        proof {
            reveal_strlit("\t");
        }
        assert(line@ =~= file_line(files@[i as int]@));
        emit(out, &line, Ghost(before));
        assert(before.push(line@) =~= ls + file_lines(strings_view(files@)).take(i + 1));
        i = i + 1;
    }
    assert(file_lines(strings_view(files@)).take(i as int) =~= file_lines(strings_view(files@)));
}

fn decl_string(t: &Target) -> (r: String)
    requires
        t.kind != TargetType::Temporary,
    ensures
        r@ == decl_line(t@),
{
    let mut decl = String::new();
    let ghost none = Seq::<char>::empty();
    if t.kind == TargetType::Executable {
        decl.append("executable");
        let ghost w1 = seq!["executable"@];
        add_word(&mut decl, t.name.as_str(), Ghost(w1), Ghost(none));
        assert(w1.push(t.name@) =~= seq!["executable"@, t.name@]);
    } else {
        decl.append("lib");
        let ghost w1 = seq!["lib"@];
        let ghost w2 = seq!["lib"@, t.name@];
        add_word(&mut decl, t.name.as_str(), Ghost(w1), Ghost(none));
        assert(w1.push(t.name@) =~= w2);
        let k = t.kind.to_string();
        add_word(&mut decl, k.as_str(), Ghost(w2), Ghost(none));
        assert(w2.push(k@) =~= seq!["lib"@, t.name@, kind_word(t.kind)]);
    }
    decl
}

fn write_options(out: &mut String, o: &TargetOptions, Ghost(ls): Ghost<Seq<Seq<char>>>)
    requires
        old(out)@ == unlines(ls),
    ensures
        final(out)@ == unlines(ls + option_lines(o@)),
{
    write_flag(out, o.generate_c, "$generate-c", Ghost(ls));
    let ghost l2 = ls + flag_line(o.generate_c, "$generate-c"@);
    write_flag(out, o.generate_ir, "$generate-ir", Ghost(l2));
    let ghost l3 = l2 + flag_line(o.generate_ir, "$generate-ir"@);
    write_flag(out, o.nolibc, "$nolibc", Ghost(l3));
    let ghost l4 = l3 + flag_line(o.nolibc, "$nolibc"@);
    write_flag(out, o.deps, "$deps", Ghost(l4));
    let ghost l5 = l4 + flag_line(o.deps, "$deps"@);
    write_flag(out, o.refs, "$refs", Ghost(l5));
    let ghost l6 = l5 + flag_line(o.refs, "$refs"@);
    write_list(out, "$export", &o.export, Ghost(l6));
    let ghost l7 = l6 + list_line("$export"@, strings_view(o.export@));
    write_list(out, "$config", &o.config, Ghost(l7));
    let ghost l8 = l7 + list_line("$config"@, strings_view(o.config@));
    write_list(out, "$warnings", &o.warnings, Ghost(l8));
    let ghost l9 = l8 + list_line("$warnings"@, strings_view(o.warnings@));
    write_uses(out, &o.lib_use, Ghost(l9));
    proof {
        lemma_option_lines_split(ls, o@);
    }
}

proof fn lemma_option_lines_split(ls: Seq<Seq<char>>, o: OptionsModel)
    ensures
        ls + option_lines(o) == ls + flag_line(o.generate_c, "$generate-c"@)
            + flag_line(o.generate_ir, "$generate-ir"@) + flag_line(o.nolibc, "$nolibc"@)
            + flag_line(o.deps, "$deps"@) + flag_line(o.refs, "$refs"@)
            + list_line("$export"@, o.export) + list_line("$config"@, o.config)
            + list_line("$warnings"@, o.warnings)
            + use_lines(o.lib_use),
{
    let p1 = flag_line(o.generate_c, "$generate-c"@);
    let p2 = p1 + flag_line(o.generate_ir, "$generate-ir"@);
    let p3 = p2 + flag_line(o.nolibc, "$nolibc"@);
    let p4 = p3 + flag_line(o.deps, "$deps"@);
    let p5 = p4 + flag_line(o.refs, "$refs"@);
    let p6 = p5 + list_line("$export"@, o.export);
    let p7 = p6 + list_line("$config"@, o.config);
    let p8 = p7 + list_line("$warnings"@, o.warnings);
    lemma_concat_associative(ls, p8, use_lines(o.lib_use));
    lemma_concat_associative(ls, p7, list_line("$warnings"@, o.warnings));
    lemma_concat_associative(ls, p6, list_line("$config"@, o.config));
    lemma_concat_associative(ls, p5, list_line("$export"@, o.export));
    lemma_concat_associative(ls, p4, flag_line(o.refs, "$refs"@));
    lemma_concat_associative(ls, p3, flag_line(o.deps, "$deps"@));
    lemma_concat_associative(ls, p2, flag_line(o.nolibc, "$nolibc"@));
    lemma_concat_associative(ls, p1, flag_line(o.generate_ir, "$generate-ir"@));
}

fn write_target(out: &mut String, t: &Target, Ghost(ls): Ghost<Seq<Seq<char>>>)
    requires
        old(out)@ == unlines(ls),
        t.kind != TargetType::Temporary,
    ensures
        final(out)@ == unlines(ls + target_lines(t@)),
{
    let decl = decl_string(t);
    emit(out, &decl, Ghost(ls));
    let ghost l1 = ls.push(decl@);
    write_options(out, &t.options, Ghost(l1));
    let ghost l2 = l1 + option_lines(t.options@);
    write_files(out, &t.files, Ghost(l2));
    let ghost l3 = l2 + file_lines(strings_view(t.files@));
    let end_line = first_word("", "end");
    proof {
        reveal_strlit("");
    }
    assert(end_line@ =~= words_line(seq![], seq!["end"@]));
    emit(out, &end_line, Ghost(l3));
    let blank = String::new();
    emit(out, &blank, Ghost(l3.push(end_line@)));
    assert(l3.push(end_line@).push(blank@) =~= ls + target_lines(t@));
}

impl Recipe {
    /// The text of this recipe: a comment line and a blank line, then each
    /// target's lines in order.
    pub fn write(&self) -> (r: String)
        requires
            forall|i: int| 0 <= i < self.targets@.len() ==> (#[trigger] self.targets@[i]).kind != TargetType::Temporary,
        ensures
            r@ == serialize(self@.targets),
    {
        let mut out = String::new();
        let comment = String::from_str("# this file is generated by recipe-reader, it might be overwritten");
        let ghost none = Seq::<Seq<char>>::empty();
        let ghost first = seq![comment@];
        proof {
            reveal(unlines);
        }
        emit(&mut out, &comment, Ghost(none));
        let blank = String::new();
        assert(none.push(comment@) =~= first);
        emit(&mut out, &blank, Ghost(first));
        let ghost tv = targets_view(self.targets@);
        assert(seq![comment@].push(blank@) =~= recipe_lines(tv.take(0)));
        let mut i: usize = 0;
        while i < self.targets.len()
            invariant
                i <= self.targets@.len(),
                tv == targets_view(self.targets@),
                out@ == unlines(recipe_lines(tv.take(i as int))),
                forall|k: int| 0 <= k < self.targets@.len() ==> (#[trigger] self.targets@[k]).kind != TargetType::Temporary,
            decreases self.targets@.len() - i,
        {
            write_target(&mut out, &self.targets[i], Ghost(recipe_lines(tv.take(i as int))));
            assert(tv.take(i + 1).drop_last() =~= tv.take(i as int));
            assert(recipe_lines(tv.take(i + 1)) =~= recipe_lines(tv.take(i as int)) + target_lines(tv[i as int]));
            i = i + 1;
        }
        assert(tv.take(i as int) =~= tv);
        out
    }
}

} // verus!
