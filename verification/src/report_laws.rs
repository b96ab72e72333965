//! What the reports of other programs come to: what ssh resolves, what systemd says of
//! a unit, and what the tracer makes of a process; and how often things are looked at.

use vstd::prelude::*;
use crate::effective::{
    answer_in, exec_line, first_value, option_in, options_in, refusal, runs_command,
};
use crate::find::{first_of, holds, lemma_first_of};
use crate::key::KeyCode;
use crate::module::ModuleActionView;
use crate::number::decimal;
use crate::proctrace::{
    answered, at_new_query, emitted, fresh_tracer, query_key, results_key, Answer, FoundProcessView,
    InputMode, ReactionView, TracerView,
};
use crate::rhythm::Rhythm;
use crate::split::lines_of;
use crate::state::Screen;
use crate::systemd::{properties_in, property, property_in};
use crate::text::{folded, same_word, trimmed, views};
use crate::text_laws::{gap, letter};

verus! {

/// The line opens a block on the condition of a command, whatever the case of its
/// letters.
pub open spec fn on_a_command(raw: Seq<char>) -> bool {
    let line = trimmed(raw);
    &&& line.len() >= 5
    &&& same_word(line.take(5), "MATCH"@)
    &&& exists|i: int|
        0 <= i <= line.len() - 4 && #[trigger] same_word(line.subrange(i, i + 4), "EXEC"@)
}

proof fn lemma_on_a_command(raw: Seq<char>)
    ensures
        runs_command(raw) <==> on_a_command(raw),
{
    reveal_strlit("MATCH");
    reveal_strlit("EXEC");
    reveal_strlit("match");
    reveal_strlit("exec");
    assert(folded("MATCH"@) =~= "match"@);
    assert(folded("EXEC"@) =~= "exec"@);
    let line = trimmed(raw);
    let low = folded(line);
    assert forall|i: int| 0 <= i <= line.len() - 4 implies #[trigger] same_word(
        line.subrange(i, i + 4),
        "EXEC"@,
    ) == (low.subrange(i, i + 4) == "exec"@) by {
        assert(folded(line.subrange(i, i + 4)) =~= low.subrange(i, i + 4));
    }
    if holds(low, "exec"@) {
        let i = choose|i: int|
            0 <= i <= low.len() - "exec"@.len() && #[trigger] low.subrange(
                i,
                i + "exec"@.len(),
            ) == "exec"@;
        assert(same_word(line.subrange(i, i + 4), "EXEC"@));
    }
    if on_a_command(raw) {
        let i = choose|i: int|
            0 <= i <= line.len() - 4 && #[trigger] same_word(line.subrange(i, i + 4), "EXEC"@);
        assert(low.subrange(i, i + "exec"@.len()) == "exec"@);
    }
}

/// The first line that opens a block on the condition of a command is named, counted
/// from one, and none is named only if there is none.
pub proof fn law_first_command_line_is_named(ls: Seq<Seq<char>>)
    ensures
        match exec_line(ls, 0) {
            Some(n) => 1 <= n <= ls.len() && on_a_command(ls[n - 1]) && forall|j: int|
                0 <= j < n - 1 ==> !on_a_command(#[trigger] ls[j]),
            None => forall|j: int| 0 <= j < ls.len() ==> !on_a_command(#[trigger] ls[j]),
        },
{
    lemma_exec_line(ls, 0);
}

proof fn lemma_exec_line(ls: Seq<Seq<char>>, from: int)
    requires
        0 <= from <= ls.len(),
        forall|j: int| 0 <= j < from ==> !on_a_command(#[trigger] ls[j]),
    ensures
        match exec_line(ls, from) {
            Some(n) => 1 <= n <= ls.len() && on_a_command(ls[n - 1]) && forall|j: int|
                0 <= j < n - 1 ==> !on_a_command(#[trigger] ls[j]),
            None => forall|j: int| 0 <= j < ls.len() ==> !on_a_command(#[trigger] ls[j]),
        },
    decreases ls.len() - from,
{
    if from < ls.len() {
        lemma_on_a_command(ls[from]);
        if !runs_command(ls[from]) {
            lemma_exec_line(ls, from + 1);
        }
    }
}

/// The refusal gives no values and names the line.
pub proof fn law_refusal_names_the_line(line: int)
    ensures
        refusal(line).values.len() == 0,
        refusal(line).error == Some(
            "not run: `Match exec` on line "@ + decimal(line as nat)
                + " would execute a command"@,
        ),
{
}

/// Each line of an answer is an option, a blank and its value: the option is taken in
/// small letters, and the value without the spaces around it. A line without a blank
/// says nothing, and the options stand in the order of the lines.
pub proof fn law_answer_is_read_line_by_line(
    ls: Seq<Seq<char>>,
    key: Seq<char>,
    value: Seq<char>,
)
    requires
        !key.contains(' '),
    ensures
        options_in(Seq::empty()).len() == 0,
        options_in(ls.push(key.push(' ') + value)) == options_in(ls).push(
            (folded(key), trimmed(value)),
        ),
        options_in(ls.push(key)) == options_in(ls),
{
    let line = key.push(' ') + value;
    let n = key.len() as int;
    lemma_first_of(line, ' ', 0);
    lemma_first_of(key, ' ', 0);
    assert(line[n] == ' ');
    let i = first_of(line, ' ', 0);
    if i < n {
        assert(line[i] == key[i]);
        assert(key.contains(key[i]));
    }
    assert(line.take(n) =~= key);
    assert(line.skip(n + 1) =~= value);
    let k = first_of(key, ' ', 0);
    if k < key.len() {
        assert(key.contains(key[k]));
    }
    assert(ls.push(line).drop_last() =~= ls);
    assert(ls.push(key).drop_last() =~= ls);
}

/// An answer has the options of all lines of the output, and an error only where
/// something but spaces was written beside it.
pub proof fn law_answer_has_an_error_if_one_is_written(
    stdout: Seq<char>,
    spaces: Seq<char>,
    text: Seq<char>,
)
    requires
        gap(spaces),
        text.len() > 0,
        letter(text[0]),
        letter(text.last()),
    ensures
        answer_in(stdout, spaces).values == options_in(lines_of(stdout)),
        answer_in(stdout, spaces).error is None,
        answer_in(stdout, text + spaces).values == options_in(lines_of(stdout)),
        answer_in(stdout, text + spaces).error == Some(text),
{
    let none = Seq::<char>::empty();
    crate::text_laws::law_trimming_takes_the_spaces_off(none, text, spaces);
    assert(none + text + spaces =~= text + spaces);
    lemma_gap_is_nothing(spaces);
}

proof fn lemma_gap_is_nothing(s: Seq<char>)
    requires
        gap(s),
    ensures
        trimmed(s).len() == 0,
{
    crate::text::lemma_lead(s, 0);
    let lo = crate::text::lead(s, 0);
    if lo < s.len() {
        assert(crate::text_laws::space(s[lo]));
    }
    let u = s.skip(lo);
    crate::text::lemma_tail(u, u.len() as int);
}

/// The value of an option is that of the first pair with its name.
pub proof fn law_first_value_counts(
    values: Seq<(Seq<char>, Seq<char>)>,
    key: Seq<char>,
    i: int,
)
    ensures
        0 <= i < values.len() && values[i].0 == key && (forall|j: int|
            0 <= j < i ==> (#[trigger] values[j]).0 != key) ==> first_value(values, key, 0) == Some(
            values[i].1,
        ),
        (forall|j: int| 0 <= j < values.len() ==> (#[trigger] values[j]).0 != key) ==> first_value(
            values,
            key,
            0,
        ) is None,
{
    lemma_first_value(values, key, 0, i);
}

proof fn lemma_first_value(
    values: Seq<(Seq<char>, Seq<char>)>,
    key: Seq<char>,
    from: int,
    i: int,
)
    requires
        0 <= from,
    ensures
        from <= i < values.len() && values[i].0 == key && (forall|j: int|
            from <= j < i ==> (#[trigger] values[j]).0 != key) ==> first_value(values, key, from)
            == Some(values[i].1),
        (forall|j: int| from <= j < values.len() ==> (#[trigger] values[j]).0 != key)
            ==> first_value(values, key, from) is None,
    decreases values.len() - from,
{
    if from < values.len() && values[from].0 != key {
        lemma_first_value(values, key, from + 1, i);
    }
}

/// Each line of systemd's report is a name, `=` and a value, which may hold `=` itself;
/// a line without `=` says nothing. A later line with the same name counts, and no
/// other name is touched.
pub proof fn law_properties_are_read_line_by_line(
    ls: Seq<Seq<char>>,
    key: Seq<char>,
    value: Seq<char>,
    other: Seq<char>,
)
    requires
        !key.contains('='),
    ensures
        property(properties_in(Seq::empty()), key) is None,
        property(properties_in(ls.push(key.push('=') + value)), key) == Some(value),
        other != key ==> property(properties_in(ls.push(key.push('=') + value)), other) == property(
            properties_in(ls),
            other,
        ),
        properties_in(ls.push(key)) == properties_in(ls),
{
    let line = key.push('=') + value;
    let n = key.len() as int;
    lemma_first_of(line, '=', 0);
    lemma_first_of(key, '=', 0);
    assert(line[n] == '=');
    let i = first_of(line, '=', 0);
    if i < n {
        assert(line[i] == key[i]);
        assert(key.contains(key[i]));
    }
    assert(line.take(n) =~= key);
    assert(line.skip(n + 1) =~= value);
    let k = first_of(key, '=', 0);
    if k < key.len() {
        assert(key.contains(key[k]));
    }
    assert(ls.push(line).drop_last() =~= ls);
    assert(ls.push(key).drop_last() =~= ls);
}

/// While results are looked at, `x` kills the selected process, `c` goes to its
/// directory, `l` follows the log of its unit and `r` restarts the unit; where there is
/// no directory or no unit, that is said and nothing is run.
pub proof fn law_command_on_the_selected_process(t: TracerView, p: FoundProcessView, key: char)
    requires
        0 <= t.selected_result < t.query_results.len(),
        t.query_results[t.selected_result] == p,
        key == 'x' || key == 'c' || key == 'l' || key == 'r',
    ensures
        ({
            let (next, asked) = results_key(t, KeyCode::Char(key));
            let runs = |command: Seq<char>|
                next == t && asked == ReactionView::Act(ModuleActionView::Output(command));
            let says = |reason: Seq<char>|
                next == (TracerView { notification: Some(reason), ..t }) && asked
                    == ReactionView::Act(ModuleActionView::Stay);
            &&& key == 'x' ==> runs("kill "@ + decimal(p.pid as nat))
            &&& key == 'c' && p.working_directory is Some ==> runs(
                "cd "@ + p.working_directory->0,
            )
            &&& key == 'c' && p.working_directory is None ==> says(
                "No working directory for this process"@,
            )
            &&& key == 'l' && p.unit is Some ==> runs("journalctl -u "@ + p.unit->0 + " -f"@)
            &&& key == 'r' && p.unit is Some ==> runs("systemctl restart "@ + p.unit->0)
            &&& (key == 'l' || key == 'r') && p.unit is None ==> says("Not supervised by systemd"@)
        }),
{
}

/// While results are looked at, the keys move in the list; Esc and `/` go back to an
/// empty query, `q` leaves, and a key that is not bound does nothing. Without a selected
/// process no command is run.
pub proof fn law_result_keys(t: TracerView, code: KeyCode)
    ensures
        ({
            let (next, asked) = results_key(t, code);
            let stays = ReactionView::Act(ModuleActionView::Stay);
            &&& (code == KeyCode::Esc || code == KeyCode::Char('/')) ==> asked == stays && next == (
            TracerView {
                input_mode: InputMode::Query,
                query_input: Seq::empty(),
                scroll_offset: 0,
                ..t
            })
            &&& asked == ReactionView::SelectPrevious <==> code == KeyCode::Up || code
                == KeyCode::Char('k')
            &&& asked == ReactionView::SelectNext <==> code == KeyCode::Down || code
                == KeyCode::Char('j')
            &&& asked == ReactionView::SelectFirst <==> code == KeyCode::Home || code
                == KeyCode::Char('g')
            &&& asked == ReactionView::SelectLast <==> code == KeyCode::End || code
                == KeyCode::Char('G')
            &&& asked == ReactionView::PageUp <==> code == KeyCode::PageUp
            &&& asked == ReactionView::PageDown <==> code == KeyCode::PageDown
            &&& asked == ReactionView::Act(ModuleActionView::Exit) <==> code == KeyCode::Char('q')
            &&& asked != ReactionView::RunQuery
            &&& asked != ReactionView::HistoryUp
            &&& asked != ReactionView::HistoryDown
            &&& asked != stays && !(asked is Act && asked->Act_0 is Output) ==> next == t
            &&& !(0 <= t.selected_result < t.query_results.len()) && code is Char && code
                != KeyCode::Char('/') ==> next == t
            &&& (asked is Act && asked->Act_0 is Output) ==> code == KeyCode::Char('x') || code
                == KeyCode::Char('c') || code == KeyCode::Char('l') || code == KeyCode::Char('r')
            &&& (code == KeyCode::Tab || code == KeyCode::Enter || code == KeyCode::Backspace || code
                == KeyCode::Left || code == KeyCode::Right) ==> next == t && asked == stays
        }),
{
}

/// While a query is typed, a character goes to its end, Backspace takes the last one
/// off, the arrows go through the history, Enter runs the query and Esc leaves.
pub proof fn law_query_keys(t: TracerView, code: KeyCode)
    ensures
        ({
            let (next, asked) = query_key(t, code);
            let stays = ReactionView::Act(ModuleActionView::Stay);
            &&& next == TracerView { query_input: next.query_input, ..t }
            &&& code matches KeyCode::Char(c) ==> next.query_input == t.query_input.push(c) && asked
                == stays
            &&& code == KeyCode::Backspace ==> asked == stays && next.query_input == (
            if t.query_input.len() > 0 {
                t.query_input.drop_last()
            } else {
                t.query_input
            })
            &&& !(code is Char) && code != KeyCode::Backspace ==> next == t
            &&& asked == ReactionView::RunQuery <==> code == KeyCode::Enter
            &&& asked == ReactionView::HistoryUp <==> code == KeyCode::Up
            &&& asked == ReactionView::HistoryDown <==> code == KeyCode::Down
            &&& asked == ReactionView::Act(ModuleActionView::Exit) <==> code == KeyCode::Esc
        }),
{
}

/// A query that found something shows what it found, from the top, and counts it; one
/// that found nothing, or failed, leaves what is shown and says so.
pub proof fn law_answer_to_a_query(t: TracerView, answer: Answer)
    ensures
        answer matches Answer::Found(results) ==> results@.len() > 0 ==> answered(t, answer) == (
        TracerView {
            query_results: views(results@),
            selected_result: 0,
            scroll_offset: 0,
            input_mode: InputMode::ViewResults,
            notification: Some("Found "@ + decimal(results@.len()) + " result(s)"@),
            ..t
        }),
        answer matches Answer::Found(results) ==> results@.len() == 0 ==> answered(t, answer) == (
        TracerView { notification: Some("No processes found"@), ..t }),
        answer matches Answer::Invalid(e) ==> answered(t, answer) == (TracerView {
            notification: Some("Invalid query: "@ + e@),
            ..t
        }),
        answer matches Answer::Failed(e) ==> answered(t, answer) == (TracerView {
            notification: Some("Query error: "@ + e@),
            ..t
        }),
{
}

/// The tracer starts at an empty query with nothing found.
pub proof fn law_tracer_starts_at_a_query()
    ensures
        fresh_tracer().input_mode == InputMode::Query,
        fresh_tracer().query_input.len() == 0,
        fresh_tracer().query_results.len() == 0,
        fresh_tracer().selected_result == 0,
        fresh_tracer().scroll_offset == 0,
        fresh_tracer().notification is None,
{
}

/// Processes and sockets are looked at when a second has gone by, on every screen; the
/// paths are measured when ten have, on the dashboard alone, and at once when it is
/// entered.
pub proof fn law_every_second_and_every_ten(r: Rhythm, screen: Screen, at: u64, now: u64)
    ensures
        r.scanned == Some(at) ==> (r.due_on(screen, now).scan <==> now >= at + 1000),
        r.scanned is None ==> r.due_on(screen, now).scan,
        r.due_on(screen, now).observe == r.due_on(screen, now).scan,
        r.screen == Screen::Dashboard && r.measured == Some(at) ==> (r.due_on(
            Screen::Dashboard,
            now,
        ).check <==> now >= at + 10000),
        r.screen != Screen::Dashboard ==> r.due_on(Screen::Dashboard, now).check,
        r.measured is None ==> r.due_on(Screen::Dashboard, now).check,
        screen != Screen::Dashboard ==> !r.due_on(screen, now).check,
        r.ticked(screen, now).screen == screen,
        r.due_on(screen, now).scan ==> r.ticked(screen, now).scanned == Some(now),
        !r.due_on(screen, now).scan ==> r.ticked(screen, now).scanned == r.scanned,
        r.due_on(screen, now).check ==> r.ticked(screen, now).measured == Some(now),
        !r.due_on(screen, now).check && screen == r.screen ==> r.ticked(screen, now).measured
            == r.measured,
        !r.due_on(screen, now).check && screen != r.screen ==> r.ticked(screen, now).measured
            is None,
{
}

} // verus!
