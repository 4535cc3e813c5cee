//! What holds of reading and writing together: written recipes read back
//! unchanged, comments are ignored, and flag lines may repeat.
use vstd::prelude::*;
use crate::model::{
    empty_options, fresh_target, kind_word, use_word, OptionsModel, ReadState, TargetModel, TargetType,
    Use,
};
use crate::parser::{
    dispatch, is_comment, is_flag_keyword, parse_text, run, set_flag, start_machine, step, use_of_word,
    with_options, ErrorModel, Machine,
};
use crate::text::{
    is_line_feed, is_space, is_token, lemma_run_len_exact, lemma_tokens_skip_spaces,
    lemma_tokens_word, lines_of, tokens_of,
};
use crate::writer::{
    decl_line, file_line, file_lines, flag_line, header_lines, join, lemma_unlines_concat, list_line, option_lines,
    recipe_lines, serialize, tab, target_lines, unlines, use_line, use_lines, words_line,
};

verus! {

/// A line without a line feed in it.
pub open spec fn no_line_feed(l: Seq<char>) -> bool {
    forall|i: int| 0 <= i < l.len() ==> #[trigger] l[i] != '\n'
}

/// Whitespace only, no line feed.
pub open spec fn is_indent(s: Seq<char>) -> bool {
    forall|i: int| 0 <= i < s.len() ==> is_space(#[trigger] s[i]) && s[i] != '\n'
}

proof fn lemma_tokens_join(ws: Seq<Seq<char>>)
    requires
        ws.len() > 0,
        forall|i: int| 0 <= i < ws.len() ==> is_token(#[trigger] ws[i]),
    ensures
        tokens_of(join(ws)) == ws,
        no_line_feed(join(ws)),
    decreases ws.len(),
{
    assert(is_token(ws[0]));
    if ws.len() == 1 {
        lemma_tokens_word(ws[0], seq![]);
        assert(ws[0] + Seq::<char>::empty() =~= ws[0]);
        assert(seq![ws[0]] + tokens_of(seq![]) =~= ws);
    } else {
        let rest = ws.drop_first();
        assert forall|i: int| 0 <= i < rest.len() implies is_token(#[trigger] rest[i]) by {
            assert(rest[i] == ws[i + 1]);
        }
        lemma_tokens_join(rest);
        let tail = seq![' '] + join(rest);
        assert(is_space(' '));
        assert(tail[0] == ' ');
        lemma_tokens_word(ws[0], tail);
        assert(ws[0] + seq![' '] + join(rest) =~= ws[0] + tail);
        lemma_tokens_skip_spaces(tail, 1);
        assert(tail.skip(1) =~= join(rest));
        assert(seq![ws[0]] + rest =~= ws);
        let j = join(ws);
        assert forall|i: int| 0 <= i < j.len() implies #[trigger] j[i] != '\n' by {
            if i < ws[0].len() {
                assert(j[i] == ws[0][i]);
                assert(!is_space(ws[0][i]));
            } else if i > ws[0].len() {
                assert(j[i] == join(rest)[i - ws[0].len() - 1]);
            }
        }
    }
}

/// The tokens of a line written as an indent and words are those words.
pub proof fn lemma_tokens_words_line(indent: Seq<char>, ws: Seq<Seq<char>>)
    requires
        is_indent(indent),
        ws.len() > 0,
        forall|i: int| 0 <= i < ws.len() ==> is_token(#[trigger] ws[i]),
    ensures
        tokens_of(words_line(indent, ws)) == ws,
        no_line_feed(words_line(indent, ws)),
{
    lemma_tokens_join(ws);
    let l = words_line(indent, ws);
    lemma_tokens_skip_spaces(l, indent.len() as int);
    assert(l.skip(indent.len() as int) =~= join(ws));
    assert forall|i: int| 0 <= i < l.len() implies #[trigger] l[i] != '\n' by {
        if i >= indent.len() {
            assert(l[i] == join(ws)[i - indent.len()]);
        }
    }
}

/// Lines without line feeds, each written with a line feed after it, read back
/// as the same lines and the empty line after the last line feed.
pub proof fn lemma_lines_of_unlines(ls: Seq<Seq<char>>)
    requires
        forall|i: int| 0 <= i < ls.len() ==> no_line_feed(#[trigger] ls[i]),
    ensures
        lines_of(unlines(ls)) == ls.push(seq![]),
    decreases ls.len(),
{
    if ls.len() == 0 {
        reveal(unlines);
        assert(lines_of(seq![]) == seq![Seq::<char>::empty()]);
        assert(ls.push(seq![]) =~= seq![Seq::<char>::empty()]);
    } else {
        let l = ls[0];
        let rest = ls.drop_first();
        assert forall|i: int| 0 <= i < rest.len() implies no_line_feed(#[trigger] rest[i]) by {
            assert(rest[i] == ls[i + 1]);
        }
        lemma_lines_of_unlines(rest);
        lemma_unlines_concat(seq![l], rest);
        assert(seq![l] + rest =~= ls);
        reveal(unlines);
        assert(seq![l].drop_last() =~= Seq::<Seq<char>>::empty());
        assert(unlines(Seq::<Seq<char>>::empty()) == Seq::<char>::empty());
        assert(seq![l].last() == l);
        assert(unlines(seq![l]) =~= l + seq!['\n']);
        let s = unlines(ls);
        assert(s =~= l + seq!['\n'] + unlines(rest));
        assert(no_line_feed(l));
        assert forall|i: int| 0 <= i < l.len() implies !is_line_feed(#[trigger] s[i]) by {
            assert(s[i] == l[i]);
        }
        assert(s[l.len() as int] == '\n');
        lemma_run_len_exact(s, |c: char| is_line_feed(c), l.len() as int);
        assert(s.take(l.len() as int) =~= l);
        assert(s.skip(l.len() + 1 as int) =~= unlines(rest));
        assert(seq![l] + rest.push(seq![]) =~= ls.push(seq![]));
    }
}

/// Reading `a + b` is reading `a`, then, unless it stopped on an error, `b`.
pub proof fn lemma_run_concat(m: Machine, a: Seq<Seq<char>>, b: Seq<Seq<char>>, first: nat)
    ensures
        run(m, a + b, first) == ({
            let (m1, e) = run(m, a, first);
            if e is Some { (m1, e) } else { run(m1, b, first + a.len()) }
        }),
    decreases b.len(),
{
    if b.len() == 0 {
        assert(a + b =~= a);
    } else {
        assert((a + b).drop_last() =~= a + b.drop_last());
        assert((a + b).last() == b.last());
        lemma_run_concat(m, a, b.drop_last(), first);
    }
}

/// The keywords are tokens; the option keywords start with `$`; no two of them
/// are the same.
proof fn lemma_keywords()
    ensures
        is_token("executable"@),
        is_token("lib"@),
        is_token("shared"@),
        is_token("static"@),
        is_token("dynamic"@),
        is_token("end"@),
        is_token("$use"@),
        is_token("$export"@),
        is_token("$config"@),
        is_token("$warnings"@),
        is_token("$refs"@),
        is_token("$deps"@),
        is_token("$nolibc"@),
        is_token("$generate-c"@),
        is_token("$generate-ir"@),
        "executable"@[0] == 'e',
        "lib"@[0] == 'l',
        "end"@[0] == 'e',
        "$use"@[0] == '$',
        "$export"@[0] == '$',
        "$config"@[0] == '$',
        "$warnings"@[0] == '$',
        "$refs"@[0] == '$',
        "$deps"@[0] == '$',
        "$nolibc"@[0] == '$',
        "$generate-c"@[0] == '$',
        "$generate-ir"@[0] == '$',
        "lib"@ != "executable"@,
        "static"@ != "shared"@,
        "dynamic"@ != "static"@,
        "$use"@ != "end"@,
        "$export"@ != "end"@,
        "$config"@ != "end"@,
        "$warnings"@ != "end"@,
        "$refs"@ != "end"@,
        "$deps"@ != "end"@,
        "$nolibc"@ != "end"@,
        "$generate-c"@ != "end"@,
        "$generate-ir"@ != "end"@,
        "$deps"@ != "$refs"@,
        "$nolibc"@ != "$refs"@,
        "$nolibc"@ != "$deps"@,
        "$generate-ir"@ != "$refs"@,
        "$generate-ir"@ != "$deps"@,
        "$generate-ir"@ != "$nolibc"@,
        "$generate-c"@ != "$refs"@,
        "$generate-c"@ != "$deps"@,
        "$generate-c"@ != "$nolibc"@,
        "$generate-c"@ != "$generate-ir"@,
        "$warnings"@ != "$refs"@,
        "$warnings"@ != "$deps"@,
        "$warnings"@ != "$nolibc"@,
        "$warnings"@ != "$generate-ir"@,
        "$warnings"@ != "$generate-c"@,
        "$export"@ != "$refs"@,
        "$export"@ != "$deps"@,
        "$export"@ != "$nolibc"@,
        "$export"@ != "$generate-ir"@,
        "$export"@ != "$generate-c"@,
        "$config"@ != "$refs"@,
        "$config"@ != "$deps"@,
        "$config"@ != "$nolibc"@,
        "$config"@ != "$generate-ir"@,
        "$config"@ != "$generate-c"@,
        "$use"@ != "$refs"@,
        "$use"@ != "$deps"@,
        "$use"@ != "$nolibc"@,
        "$use"@ != "$generate-ir"@,
        "$use"@ != "$generate-c"@,
        "$export"@ != "$warnings"@,
        "$config"@ != "$warnings"@,
        "$config"@ != "$export"@,
        "$use"@ != "$warnings"@,
        "$use"@ != "$export"@,
        "$use"@ != "$config"@,
{
    reveal_strlit("executable");
    reveal_strlit("lib");
    reveal_strlit("shared");
    reveal_strlit("static");
    reveal_strlit("dynamic");
    reveal_strlit("end");
    reveal_strlit("$use");
    reveal_strlit("$export");
    reveal_strlit("$config");
    reveal_strlit("$warnings");
    reveal_strlit("$refs");
    reveal_strlit("$deps");
    reveal_strlit("$nolibc");
    reveal_strlit("$generate-c");
    reveal_strlit("$generate-ir");
    assert("static"@[1] != "shared"@[1]);
    assert("$deps"@[1] != "$refs"@[1]);
    assert("$export"@[1] != "$nolibc"@[1]);
    assert("$config"@[1] != "$nolibc"@[1]);
    assert("$config"@[1] != "$export"@[1]);
}

/// Reading a single line.
proof fn lemma_run_one(m: Machine, l: Seq<char>, first: nat)
    ensures
        run(m, seq![l], first) == (match step(m, l, first) {
            Ok(m2) => (m2, None),
            Err(e) => (m, Some(e)),
        }),
{
    assert(seq![l].drop_last() =~= Seq::<Seq<char>>::empty());
    assert(seq![l].last() == l);
    assert(run(m, Seq::<Seq<char>>::empty(), first) == (m, None::<ErrorModel>));
    assert((first + seq![l].len() - 1) as nat == first);
}

proof fn lemma_tab_indent()
    ensures
        is_indent(tab()),
        words_line(tab(), seq![Seq::<char>::empty()])[0] == '\t',
{
    assert(is_space('\t'));
}

/// A line of a target's body, written with a tab and tokens, is read as those
/// tokens.
proof fn lemma_step_body(m: Machine, ws: Seq<Seq<char>>, n: nat)
    requires
        ws.len() > 0,
        forall|i: int| 0 <= i < ws.len() ==> is_token(#[trigger] ws[i]),
    ensures
        step(m, words_line(tab(), ws), n) == dispatch(m, ws, n),
{
    lemma_tab_indent();
    lemma_tokens_words_line(tab(), ws);
    assert(words_line(tab(), ws)[0] == '\t');
}

/// Options `o` with the flag of `kw` switched on where `on` holds.
pub open spec fn flag_after(o: OptionsModel, on: bool, kw: Seq<char>) -> OptionsModel {
    if on { set_flag(o, kw) } else { o }
}

proof fn lemma_flag_block(m: Machine, on: bool, kw: Seq<char>, first: nat)
    requires
        m.state == ReadState::InsideTarget,
        is_flag_keyword(kw),
    ensures
        run(m, flag_line(on, kw), first)
            == (Machine { cur: with_options(m.cur, flag_after(m.cur.options, on, kw)), ..m }, None::<ErrorModel>),
{
    lemma_keywords();
    if on {
        lemma_run_one(m, words_line(tab(), seq![kw]), first);
        lemma_step_body(m, seq![kw], first);
    } else {
        assert(with_options(m.cur, m.cur.options) == m.cur);
        assert(flag_line(on, kw) =~= Seq::<Seq<char>>::empty());
    }
}

/// Options `o` with `items` appended to the list of keyword `kw`.
pub open spec fn list_after(o: OptionsModel, kw: Seq<char>, items: Seq<Seq<char>>) -> OptionsModel {
    if kw == "$warnings"@ {
        OptionsModel { warnings: o.warnings + items, ..o }
    } else if kw == "$export"@ {
        OptionsModel { export: o.export + items, ..o }
    } else {
        OptionsModel { config: o.config + items, ..o }
    }
}

proof fn lemma_list_block(m: Machine, kw: Seq<char>, items: Seq<Seq<char>>, first: nat)
    requires
        m.state == ReadState::InsideTarget,
        kw == "$warnings"@ || kw == "$export"@ || kw == "$config"@,
        forall|i: int| 0 <= i < items.len() ==> is_token(#[trigger] items[i]),
    ensures
        run(m, list_line(kw, items), first)
            == (Machine { cur: with_options(m.cur, list_after(m.cur.options, kw, items)), ..m }, None::<ErrorModel>),
{
    lemma_keywords();
    let o = m.cur.options;
    if items.len() == 0 {
        assert(o.warnings + items =~= o.warnings);
        assert(o.export + items =~= o.export);
        assert(o.config + items =~= o.config);
        assert(with_options(m.cur, list_after(o, kw, items)) == m.cur);
        assert(list_line(kw, items) =~= Seq::<Seq<char>>::empty());
    } else {
        let ws = seq![kw] + items;
        assert forall|i: int| 0 <= i < ws.len() implies is_token(#[trigger] ws[i]) by {
            if i > 0 {
                assert(ws[i] == items[i - 1]);
            }
        }
        lemma_run_one(m, words_line(tab(), ws), first);
        lemma_step_body(m, ws, first);
        assert(ws[0] == kw);
        assert(ws.skip(1) =~= items);
    }
}

proof fn lemma_use_block(m: Machine, us: Seq<(Seq<char>, Use)>, first: nat)
    requires
        m.state == ReadState::InsideTarget,
        forall|i: int| 0 <= i < us.len() ==> is_token(#[trigger] us[i].0),
        (m.cur.options.lib_use + us).no_duplicates(),
    ensures
        run(m, use_lines(us), first) == (Machine {
            cur: with_options(m.cur, OptionsModel { lib_use: m.cur.options.lib_use + us, ..m.cur.options }),
            ..m
        }, None::<ErrorModel>),
    decreases us.len(),
{
    let o = m.cur.options;
    if us.len() == 0 {
        assert(o.lib_use + us =~= o.lib_use);
        assert(with_options(m.cur, OptionsModel { lib_use: o.lib_use + us, ..o }) == m.cur);
        assert(use_lines(us) =~= Seq::<Seq<char>>::empty());
    } else {
        let init = us.drop_last();
        let p = us.last();
        assert forall|i: int| 0 <= i < init.len() implies is_token(#[trigger] init[i].0) by {
            assert(init[i] == us[i]);
        }
        let whole = o.lib_use + us;
        let before = o.lib_use + init;
        assert(before =~= whole.drop_last());
        assert(before.no_duplicates()) by {
            assert forall|i: int, j: int| 0 <= i < before.len() && 0 <= j < before.len() && i != j
                implies before[i] != before[j] by {
                assert(before[i] == whole[i] && before[j] == whole[j]);
            }
        }
        lemma_use_block(m, init, first);
        assert(use_lines(us).drop_last() =~= use_lines(init));
        assert(use_lines(us).last() == use_line(p));
        let m1 = Machine { cur: with_options(m.cur, OptionsModel { lib_use: before, ..o }), ..m };
        lemma_keywords();
        let ws = seq!["$use"@, p.0, use_word(p.1)];
        assert(is_token(us[us.len() - 1].0));
        assert(is_token(use_word(p.1)));
        lemma_step_body(m1, ws, (first + use_lines(us).len() - 1) as nat);
        assert(use_of_word(use_word(p.1)) == p.1);
        assert(!before.contains(p)) by {
            if before.contains(p) {
                let k = choose|k: int| 0 <= k < before.len() && before[k] == p;
                assert(whole[k] == whole[whole.len() - 1]);
            }
        }
        assert(before.push(p) =~= whole);
    }
}

/// A file name that a file line reads back as itself.
pub open spec fn is_file_name(f: Seq<char>) -> bool {
    is_token(f) && f != "end"@ && f[0] != '$'
}

proof fn lemma_file_block(m: Machine, fs: Seq<Seq<char>>, first: nat)
    requires
        m.state == ReadState::InsideTarget,
        forall|i: int| 0 <= i < fs.len() ==> is_file_name(#[trigger] fs[i]),
        (m.cur.files + fs).no_duplicates(),
    ensures
        run(m, file_lines(fs), first)
            == (Machine { cur: TargetModel { files: m.cur.files + fs, ..m.cur }, ..m }, None::<ErrorModel>),
    decreases fs.len(),
{
    if fs.len() == 0 {
        assert(m.cur.files + fs =~= m.cur.files);
        assert(file_lines(fs) =~= Seq::<Seq<char>>::empty());
    } else {
        let init = fs.drop_last();
        let f = fs.last();
        assert forall|i: int| 0 <= i < init.len() implies is_file_name(#[trigger] init[i]) by {
            assert(init[i] == fs[i]);
        }
        let whole = m.cur.files + fs;
        let before = m.cur.files + init;
        assert(before =~= whole.drop_last());
        assert(before.no_duplicates()) by {
            assert forall|i: int, j: int| 0 <= i < before.len() && 0 <= j < before.len() && i != j
                implies before[i] != before[j] by {
                assert(before[i] == whole[i] && before[j] == whole[j]);
            }
        }
        lemma_file_block(m, init, first);
        assert(file_lines(fs).drop_last() =~= file_lines(init));
        assert(file_lines(fs).last() == file_line(f));
        let m1 = Machine { cur: TargetModel { files: before, ..m.cur }, ..m };
        lemma_keywords();
        assert(is_file_name(fs[fs.len() - 1]));
        lemma_step_body(m1, seq![f], (first + file_lines(fs).len() - 1) as nat);
        assert(!before.contains(f)) by {
            if before.contains(f) {
                let k = choose|k: int| 0 <= k < before.len() && before[k] == f;
                assert(whole[k] == whole[whole.len() - 1]);
            }
        }
        assert(before.push(f) =~= whole);
    }
}

/// Options whose lists hold tokens and whose library uses are distinct: what
/// the option lines read back as.
pub open spec fn writable_options(o: OptionsModel) -> bool {
    &&& o.lib_use.no_duplicates()
    &&& forall|i: int| 0 <= i < o.lib_use.len() ==> is_token(#[trigger] o.lib_use[i].0)
    &&& forall|i: int| 0 <= i < o.export.len() ==> is_token(#[trigger] o.export[i])
    &&& forall|i: int| 0 <= i < o.config.len() ==> is_token(#[trigger] o.config[i])
    &&& forall|i: int| 0 <= i < o.warnings.len() ==> is_token(#[trigger] o.warnings[i])
}

proof fn lemma_flags_block(m: Machine, o: OptionsModel, first: nat)
    requires
        m.state == ReadState::InsideTarget,
        m.cur.options == empty_options(),
    ensures
        ({
            let ls = flag_line(o.generate_c, "$generate-c"@) + flag_line(o.generate_ir, "$generate-ir"@)
                + flag_line(o.nolibc, "$nolibc"@) + flag_line(o.deps, "$deps"@) + flag_line(o.refs, "$refs"@);
            let flags = OptionsModel {
                generate_c: o.generate_c,
                generate_ir: o.generate_ir,
                nolibc: o.nolibc,
                deps: o.deps,
                refs: o.refs,
                ..empty_options()
            };
            run(m, ls, first) == (Machine { cur: with_options(m.cur, flags), ..m }, None::<ErrorModel>)
        }),
{
    lemma_keywords();
    let f1 = flag_line(o.generate_c, "$generate-c"@);
    let f2 = flag_line(o.generate_ir, "$generate-ir"@);
    let f3 = flag_line(o.nolibc, "$nolibc"@);
    let f4 = flag_line(o.deps, "$deps"@);
    let f5 = flag_line(o.refs, "$refs"@);
    let o1 = flag_after(empty_options(), o.generate_c, "$generate-c"@);
    let o2 = flag_after(o1, o.generate_ir, "$generate-ir"@);
    let o3 = flag_after(o2, o.nolibc, "$nolibc"@);
    let o4 = flag_after(o3, o.deps, "$deps"@);
    let o5 = flag_after(o4, o.refs, "$refs"@);
    let m1 = Machine { cur: with_options(m.cur, o1), ..m };
    let m2 = Machine { cur: with_options(m.cur, o2), ..m };
    let m3 = Machine { cur: with_options(m.cur, o3), ..m };
    let m4 = Machine { cur: with_options(m.cur, o4), ..m };
    lemma_flag_block(m, o.generate_c, "$generate-c"@, first);
    lemma_run_concat(m, f1, f2, first);
    lemma_flag_block(m1, o.generate_ir, "$generate-ir"@, first + f1.len());
    lemma_run_concat(m, f1 + f2, f3, first);
    lemma_flag_block(m2, o.nolibc, "$nolibc"@, first + (f1 + f2).len());
    lemma_run_concat(m, f1 + f2 + f3, f4, first);
    lemma_flag_block(m3, o.deps, "$deps"@, first + (f1 + f2 + f3).len());
    lemma_run_concat(m, f1 + f2 + f3 + f4, f5, first);
    lemma_flag_block(m4, o.refs, "$refs"@, first + (f1 + f2 + f3 + f4).len());
}

proof fn lemma_options_block(m: Machine, o: OptionsModel, first: nat)
    requires
        m.state == ReadState::InsideTarget,
        m.cur.options == empty_options(),
        writable_options(o),
    ensures
        run(m, option_lines(o), first) == (Machine { cur: with_options(m.cur, o), ..m }, None::<ErrorModel>),
{
    lemma_keywords();
    let fl = flag_line(o.generate_c, "$generate-c"@) + flag_line(o.generate_ir, "$generate-ir"@)
        + flag_line(o.nolibc, "$nolibc"@) + flag_line(o.deps, "$deps"@) + flag_line(o.refs, "$refs"@);
    let e = list_line("$export"@, o.export);
    let c = list_line("$config"@, o.config);
    let w = list_line("$warnings"@, o.warnings);
    let u = use_lines(o.lib_use);
    let o5 = OptionsModel {
        generate_c: o.generate_c,
        generate_ir: o.generate_ir,
        nolibc: o.nolibc,
        deps: o.deps,
        refs: o.refs,
        ..empty_options()
    };
    let o6 = list_after(o5, "$export"@, o.export);
    let o7 = list_after(o6, "$config"@, o.config);
    let o8 = list_after(o7, "$warnings"@, o.warnings);
    let m5 = Machine { cur: with_options(m.cur, o5), ..m };
    let m6 = Machine { cur: with_options(m.cur, o6), ..m };
    let m7 = Machine { cur: with_options(m.cur, o7), ..m };
    let m8 = Machine { cur: with_options(m.cur, o8), ..m };
    lemma_flags_block(m, o, first);
    lemma_run_concat(m, fl, e, first);
    lemma_list_block(m5, "$export"@, o.export, first + fl.len());
    assert(with_options(m5.cur, o6) == with_options(m.cur, o6));
    lemma_run_concat(m, fl + e, c, first);
    lemma_list_block(m6, "$config"@, o.config, first + (fl + e).len());
    lemma_run_concat(m, fl + e + c, w, first);
    lemma_list_block(m7, "$warnings"@, o.warnings, first + (fl + e + c).len());
    lemma_run_concat(m, fl + e + c + w, u, first);
    assert(o8.lib_use + o.lib_use =~= o.lib_use);
    lemma_use_block(m8, o.lib_use, first + (fl + e + c + w).len());
    assert(Seq::<Seq<char>>::empty() + o.export =~= o.export);
    assert(Seq::<Seq<char>>::empty() + o.config =~= o.config);
    assert(Seq::<Seq<char>>::empty() + o.warnings =~= o.warnings);
    assert(OptionsModel { lib_use: o8.lib_use + o.lib_use, ..o8 } == o);
}

/// A target that reads back as itself once written: finished, its name, files
/// and list items single tokens, and no file named `end` or starting with `$`.
pub open spec fn writable(t: TargetModel) -> bool {
    &&& t.wf()
    &&& is_token(t.name)
    &&& forall|i: int| 0 <= i < t.files.len() ==> is_file_name(#[trigger] t.files[i])
    &&& writable_options(t.options)
}

/// A line of words with no indent starts with its first word.
proof fn lemma_words_line_first(ws: Seq<Seq<char>>)
    requires
        ws.len() > 0,
        ws[0].len() > 0,
    ensures
        words_line(seq![], ws).len() > 0,
        words_line(seq![], ws)[0] == ws[0][0],
{
    let l = words_line(seq![], ws);
    assert(Seq::<char>::empty() + join(ws) =~= join(ws));
    if ws.len() > 1 {
        assert(join(ws) =~= ws[0] + seq![' '] + join(ws.drop_first()));
    }
}

proof fn lemma_target(m: Machine, t: TargetModel, first: nat)
    requires
        m.state == ReadState::Start,
        m.cur == fresh_target(),
        writable(t),
    ensures
        run(m, target_lines(t), first)
            == (Machine { done: m.done.push(t), state: ReadState::Start, cur: fresh_target() }, None::<ErrorModel>),
{
    lemma_keywords();
    let decl = decl_line(t);
    let ws = if t.kind == TargetType::Executable {
        seq!["executable"@, t.name]
    } else {
        seq!["lib"@, t.name, kind_word(t.kind)]
    };
    assert forall|i: int| 0 <= i < ws.len() implies is_token(#[trigger] ws[i]) by {}
    assert(is_indent(Seq::<char>::empty()));
    lemma_tokens_words_line(seq![], ws);
    lemma_words_line_first(ws);
    let t1 = TargetModel { name: t.name, kind: t.kind, files: seq![], options: empty_options() };
    let m1 = Machine { state: ReadState::InsideTarget, cur: t1, ..m };
    assert(step(m, decl, first) == Ok::<Machine, ErrorModel>(m1));
    lemma_run_one(m, decl, first);

    let ol = option_lines(t.options);
    let fl = file_lines(t.files);
    let tail = seq![words_line(seq![], seq!["end"@]), Seq::<char>::empty()];
    assert(target_lines(t) =~= seq![decl] + ol + fl + tail);

    let m2 = Machine { cur: with_options(t1, t.options), ..m1 };
    lemma_options_block(m1, t.options, first + 1);
    lemma_run_concat(m, seq![decl], ol, first);

    assert(Seq::<Seq<char>>::empty() + t.files =~= t.files);
    lemma_file_block(m2, t.files, first + 1 + ol.len());
    lemma_run_concat(m, seq![decl] + ol, fl, first);
    let m3 = Machine { cur: t, ..m1 };
    assert(TargetModel { files: Seq::<Seq<char>>::empty() + t.files, ..with_options(t1, t.options) } == t);

    let end_line = words_line(seq![], seq!["end"@]);
    let n_end = first + 1 + ol.len() + fl.len();
    lemma_tokens_words_line(seq![], seq!["end"@]);
    lemma_words_line_first(seq!["end"@]);
    let m4 = Machine { done: m.done.push(t), state: ReadState::Start, cur: fresh_target() };
    assert(step(m3, end_line, n_end) == Ok::<Machine, ErrorModel>(m4));
    assert(tokens_of(Seq::<char>::empty()) == Seq::<Seq<char>>::empty());
    assert(step(m4, Seq::<char>::empty(), n_end + 1) == Ok::<Machine, ErrorModel>(m4));
    lemma_run_one(m3, end_line, n_end);
    lemma_run_one(m4, Seq::<char>::empty(), n_end + 1);
    lemma_run_concat(m3, seq![end_line], seq![Seq::<char>::empty()], n_end);
    assert(seq![end_line] + seq![Seq::<char>::empty()] =~= tail);
    lemma_run_concat(m, seq![decl] + ol + fl, tail, first);
    assert((seq![decl] + ol + fl).len() == 1 + ol.len() + fl.len());
}

pub open spec fn all_no_line_feed(ls: Seq<Seq<char>>) -> bool {
    forall|i: int| 0 <= i < ls.len() ==> no_line_feed(#[trigger] ls[i])
}

proof fn lemma_all_no_line_feed_concat(a: Seq<Seq<char>>, b: Seq<Seq<char>>)
    requires
        all_no_line_feed(a),
        all_no_line_feed(b),
    ensures
        all_no_line_feed(a + b),
{
    assert forall|i: int| 0 <= i < (a + b).len() implies no_line_feed(#[trigger] (a + b)[i]) by {
        if i < a.len() {
            assert((a + b)[i] == a[i]);
        } else {
            assert((a + b)[i] == b[i - a.len()]);
        }
    }
}

proof fn lemma_target_lines_no_line_feed(t: TargetModel)
    requires
        writable(t),
    ensures
        all_no_line_feed(target_lines(t)),
{
    lemma_keywords();
    lemma_tab_indent();
    let o = t.options;
    let ws = if t.kind == TargetType::Executable {
        seq!["executable"@, t.name]
    } else {
        seq!["lib"@, t.name, kind_word(t.kind)]
    };
    assert forall|i: int| 0 <= i < ws.len() implies is_token(#[trigger] ws[i]) by {}
    assert(is_indent(Seq::<char>::empty()));
    lemma_tokens_words_line(seq![], ws);
    lemma_tokens_words_line(seq![], seq!["end"@]);
    assert(all_no_line_feed(seq![decl_line(t)]));
    assert(no_line_feed(Seq::<char>::empty()));
    assert(all_no_line_feed(seq![words_line(seq![], seq!["end"@]), Seq::<char>::empty()]));
    assert forall|kw: Seq<char>, on: bool| is_token(kw) implies all_no_line_feed(#[trigger] flag_line(on, kw)) by {
        if on {
            lemma_tokens_words_line(tab(), seq![kw]);
        }
    }
    assert forall|kw: Seq<char>, items: Seq<Seq<char>>|
        is_token(kw) && (forall|i: int| 0 <= i < items.len() ==> is_token(#[trigger] items[i]))
        implies all_no_line_feed(#[trigger] list_line(kw, items)) by {
        if items.len() > 0 {
            let ws2 = seq![kw] + items;
            assert forall|i: int| 0 <= i < ws2.len() implies is_token(#[trigger] ws2[i]) by {
                if i > 0 {
                    assert(ws2[i] == items[i - 1]);
                }
            }
            lemma_tokens_words_line(tab(), ws2);
        }
    }
    let ul = use_lines(o.lib_use);
    assert forall|i: int| 0 <= i < ul.len() implies no_line_feed(#[trigger] ul[i]) by {
        let p = o.lib_use[i];
        assert(is_token(o.lib_use[i].0));
        lemma_tokens_words_line(tab(), seq!["$use"@, p.0, use_word(p.1)]);
    }
    let fl = file_lines(t.files);
    assert forall|i: int| 0 <= i < fl.len() implies no_line_feed(#[trigger] fl[i]) by {
        assert(is_file_name(t.files[i]));
        lemma_tokens_words_line(tab(), seq![t.files[i]]);
    }
    let f1 = flag_line(o.generate_c, "$generate-c"@);
    let f2 = flag_line(o.generate_ir, "$generate-ir"@);
    let f3 = flag_line(o.nolibc, "$nolibc"@);
    let f4 = flag_line(o.deps, "$deps"@);
    let f5 = flag_line(o.refs, "$refs"@);
    let e = list_line("$export"@, o.export);
    let c = list_line("$config"@, o.config);
    let w = list_line("$warnings"@, o.warnings);
    lemma_all_no_line_feed_concat(f1, f2);
    lemma_all_no_line_feed_concat(f1 + f2, f3);
    lemma_all_no_line_feed_concat(f1 + f2 + f3, f4);
    lemma_all_no_line_feed_concat(f1 + f2 + f3 + f4, f5);
    lemma_all_no_line_feed_concat(f1 + f2 + f3 + f4 + f5, e);
    lemma_all_no_line_feed_concat(f1 + f2 + f3 + f4 + f5 + e, c);
    lemma_all_no_line_feed_concat(f1 + f2 + f3 + f4 + f5 + e + c, w);
    lemma_all_no_line_feed_concat(f1 + f2 + f3 + f4 + f5 + e + c + w, ul);
    let ol = option_lines(o);
    assert(ol == f1 + f2 + f3 + f4 + f5 + e + c + w + ul);
    let tail = seq![words_line(seq![], seq!["end"@]), Seq::<char>::empty()];
    lemma_all_no_line_feed_concat(seq![decl_line(t)], ol);
    lemma_all_no_line_feed_concat(seq![decl_line(t)] + ol, fl);
    lemma_all_no_line_feed_concat(seq![decl_line(t)] + ol + fl, tail);
    assert(target_lines(t) =~= seq![decl_line(t)] + ol + fl + tail);
}

proof fn lemma_header()
    ensures
        all_no_line_feed(header_lines()),
        is_comment(header_lines()[0]),
        tokens_of(header_lines()[1]).len() == 0,
{
    reveal_strlit("# this file is generated by recipe-reader, it might be overwritten");
    assert(tokens_of(Seq::<char>::empty()) == Seq::<Seq<char>>::empty());
}

/// Reading the written lines of `ts` after the header finishes every target of
/// `ts`, in order, with no error.
proof fn lemma_recipe_lines(ts: Seq<TargetModel>)
    requires
        forall|i: int| 0 <= i < ts.len() ==> writable(#[trigger] ts[i]),
    ensures
        run(start_machine(), recipe_lines(ts), 1)
            == (Machine { done: ts, state: ReadState::Start, cur: fresh_target() }, None::<ErrorModel>),
        all_no_line_feed(recipe_lines(ts)),
    decreases ts.len(),
{
    lemma_header();
    if ts.len() == 0 {
        assert(recipe_lines(ts) =~= header_lines());
        let h = header_lines();
        lemma_run_one(start_machine(), h[0], 1);
        lemma_run_one(start_machine(), h[1], 2);
        lemma_run_concat(start_machine(), seq![h[0]], seq![h[1]], 1);
        assert(seq![h[0]] + seq![h[1]] =~= h);
        assert(ts =~= Seq::<TargetModel>::empty());
    } else {
        let init = ts.drop_last();
        assert forall|i: int| 0 <= i < init.len() implies writable(#[trigger] init[i]) by {
            assert(init[i] == ts[i]);
        }
        lemma_recipe_lines(init);
        let t = ts.last();
        assert(writable(ts[ts.len() - 1]));
        assert(recipe_lines(ts) =~= recipe_lines(init) + target_lines(t));
        lemma_run_concat(start_machine(), recipe_lines(init), target_lines(t), 1);
        let m = Machine { done: init, state: ReadState::Start, cur: fresh_target() };
        lemma_target(m, t, 1 + recipe_lines(init).len());
        assert(init.push(t) =~= ts);
        lemma_target_lines_no_line_feed(t);
        lemma_all_no_line_feed_concat(recipe_lines(init), target_lines(t));
    }
}

/// Written and read back, well-formed targets come back the same, in the same
/// order, and the read succeeds.
pub proof fn lemma_read_write(ts: Seq<TargetModel>)
    requires
        forall|i: int| 0 <= i < ts.len() ==> writable(#[trigger] ts[i]),
    ensures
        parse_text(serialize(ts)).0.done == ts,
        parse_text(serialize(ts)).1 is None,
{
    lemma_recipe_lines(ts);
    let rl = recipe_lines(ts);
    lemma_lines_of_unlines(rl);
    let m = Machine { done: ts, state: ReadState::Start, cur: fresh_target() };
    lemma_run_concat(start_machine(), rl, seq![Seq::<char>::empty()], 1);
    assert(rl.push(Seq::<char>::empty()) =~= rl + seq![Seq::<char>::empty()]);
    assert(tokens_of(Seq::<char>::empty()) == Seq::<Seq<char>>::empty());
    lemma_run_one(m, Seq::<char>::empty(), 1 + rl.len());
}

/// Writing what was read from a written recipe gives the same text again.
pub proof fn lemma_write_read_write(ts: Seq<TargetModel>)
    requires
        forall|i: int| 0 <= i < ts.len() ==> writable(#[trigger] ts[i]),
    ensures
        serialize(parse_text(serialize(ts)).0.done) == serialize(ts),
{
    lemma_read_write(ts);
}

/// A line that reading skips: a comment, or no tokens.
pub open spec fn is_skipped(line: Seq<char>) -> bool {
    is_comment(line) || tokens_of(line).len() == 0
}

proof fn lemma_run_skipped(m: Machine, lines: Seq<Seq<char>>, first: nat)
    requires
        forall|i: int| 0 <= i < lines.len() ==> is_skipped(#[trigger] lines[i]),
    ensures
        run(m, lines, first) == (m, None::<ErrorModel>),
    decreases lines.len(),
{
    if lines.len() > 0 {
        let init = lines.drop_last();
        assert forall|i: int| 0 <= i < init.len() implies is_skipped(#[trigger] init[i]) by {
            assert(init[i] == lines[i]);
        }
        lemma_run_skipped(m, init, first);
        assert(is_skipped(lines[lines.len() - 1]));
    }
}

/// A text made only of comment lines and blank lines reads as no targets, with
/// no error.
pub proof fn lemma_comments_only(s: Seq<char>)
    requires
        forall|i: int| 0 <= i < lines_of(s).len() ==> is_skipped(#[trigger] lines_of(s)[i]),
    ensures
        parse_text(s) == (start_machine(), None::<ErrorModel>),
        parse_text(s).0.done.len() == 0,
{
    lemma_run_skipped(start_machine(), lines_of(s), 1);
}

/// The flag that the keyword `kw` switches on.
pub open spec fn flag_value(o: OptionsModel, kw: Seq<char>) -> bool {
    if kw == "$refs"@ {
        o.refs
    } else if kw == "$deps"@ {
        o.deps
    } else if kw == "$nolibc"@ {
        o.nolibc
    } else if kw == "$generate-ir"@ {
        o.generate_ir
    } else {
        o.generate_c
    }
}

/// Inside a target, a line holding a flag keyword alone switches that flag on
/// without error, and the same line again, at any later line number, leaves the
/// reader as it was.
pub proof fn lemma_flag_line_repeats(m: Machine, line: Seq<char>, kw: Seq<char>, n1: nat, n2: nat)
    requires
        m.state == ReadState::InsideTarget,
        is_flag_keyword(kw),
        !is_comment(line),
        tokens_of(line) == seq![kw],
    ensures
        ({
            let m1 = Machine { cur: with_options(m.cur, set_flag(m.cur.options, kw)), ..m };
            &&& step(m, line, n1) == Ok::<Machine, ErrorModel>(m1)
            &&& flag_value(m1.cur.options, kw)
            &&& step(m1, line, n2) == Ok::<Machine, ErrorModel>(m1)
        }),
{
    lemma_keywords();
    let o = m.cur.options;
    let o1 = set_flag(o, kw);
    assert(set_flag(o1, kw) == o1);
}

} // verus!
