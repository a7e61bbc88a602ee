use crate::task::{views_of, Task, TaskView, Tasks};
use vstd::prelude::*;

verus! {

// ---------------------------------------------------------------------------
// Characters of a string and back (trusted, std only)
// ---------------------------------------------------------------------------

/// Relies on str::chars: iterating a string slice yields exactly the
/// characters of its view, in order.
#[verifier::external_body]
pub(crate) fn str_to_chars(s: &str) -> (r: Vec<char>)
    ensures
        r@ == s@,
{
    s.chars().collect()
}

/// Relies on String's FromIterator impl: collecting characters builds the
/// string of exactly those characters, in order.
#[verifier::external_body]
pub(crate) fn chars_to_string(v: &Vec<char>) -> (r: String)
    ensures
        r@ == v@,
{
    v.iter().collect()
}

// ---------------------------------------------------------------------------
// The store's text form
//
// Each task is one block: a `[[tasks]]` header line followed by the three
// key/value lines `id=<decimal>`, `name="<escaped>"`, `done=true|false`.
// When reading, blank lines are skipped, spaces and tabs around keys and
// values are ignored, and the three fields of a block may come in any order.
// ---------------------------------------------------------------------------

pub open spec fn header_chars() -> Seq<char> {
    seq!['[', '[', 't', 'a', 's', 'k', 's', ']', ']']
}

pub open spec fn id_key() -> Seq<char> {
    seq!['i', 'd']
}

pub open spec fn name_key() -> Seq<char> {
    seq!['n', 'a', 'm', 'e']
}

pub open spec fn done_key() -> Seq<char> {
    seq!['d', 'o', 'n', 'e']
}

pub open spec fn true_chars() -> Seq<char> {
    seq!['t', 'r', 'u', 'e']
}

pub open spec fn false_chars() -> Seq<char> {
    seq!['f', 'a', 'l', 's', 'e']
}

// ----------------------------- decimal digits ------------------------------

pub open spec fn is_digit(c: char) -> bool {
    '0' as int <= c as int <= '9' as int
}

pub open spec fn digit_val(c: char) -> int {
    c as int - '0' as int
}

pub open spec fn digit_char(d: int) -> char {
    if d == 0 {
        '0'
    } else if d == 1 {
        '1'
    } else if d == 2 {
        '2'
    } else if d == 3 {
        '3'
    } else if d == 4 {
        '4'
    } else if d == 5 {
        '5'
    } else if d == 6 {
        '6'
    } else if d == 7 {
        '7'
    } else if d == 8 {
        '8'
    } else {
        '9'
    }
}

/// The decimal form of a non-negative integer, most significant digit first.
pub open spec fn digits_of(n: int) -> Seq<char>
    decreases n,
{
    if n < 10 {
        seq![digit_char(n)]
    } else {
        digits_of(n / 10).push(digit_char(n % 10))
    }
}

/// The value of a digit string, read most significant digit first.
pub open spec fn digits_val(s: Seq<char>) -> int
    decreases s.len(),
{
    if s.len() == 0 {
        0
    } else {
        digits_val(s.drop_last()) * 10 + digit_val(s.last())
    }
}

pub open spec fn all_digits(s: Seq<char>) -> bool {
    forall|i: int| 0 <= i < s.len() ==> is_digit(#[trigger] s[i])
}

pub proof fn lemma_digits_of(n: int)
    requires
        0 <= n,
    ensures
        digits_of(n).len() >= 1,
        all_digits(digits_of(n)),
        digits_val(digits_of(n)) == n,
    decreases n,
{
    if n < 10 {
        assert(is_digit(digit_char(n)));
        assert(digits_of(n) =~= seq![digit_char(n)]);
        assert(digits_of(n).drop_last() =~= Seq::<char>::empty());
        assert(digits_val(Seq::<char>::empty()) == 0);
        assert(digits_of(n).last() == digit_char(n));
        assert(digit_val(digit_char(n)) == n);
        assert(digits_val(digits_of(n)) == digits_val(digits_of(n).drop_last()) * 10 + digit_val(
            digits_of(n).last(),
        ));
        assert(all_digits(digits_of(n))) by {
            assert(digits_of(n)[0] == digit_char(n));
        }
    } else {
        lemma_digits_of(n / 10);
        assert(digits_of(n).drop_last() =~= digits_of(n / 10));
        assert(digits_of(n).last() == digit_char(n % 10));
        assert(digit_val(digit_char(n % 10)) == n % 10);
        assert(digits_val(digits_of(n)) == digits_val(digits_of(n).drop_last()) * 10 + digit_val(
            digits_of(n).last(),
        ));
        assert(n / 10 * 10 + n % 10 == n);
        assert(forall|i: int|
            0 <= i < digits_of(n).len() ==> is_digit(#[trigger] digits_of(n)[i]));
    }
}

/// A digit string is worth at least as much as any of its prefixes.
pub proof fn lemma_digits_val_mono(s: Seq<char>, k: int)
    requires
        0 <= k <= s.len(),
        all_digits(s),
    ensures
        0 <= digits_val(s.take(k)) <= digits_val(s),
    decreases s.len() - k,
{
    if k == s.len() {
        assert(s.take(k) =~= s);
        lemma_digits_val_nonneg(s);
    } else {
        lemma_digits_val_mono(s, k + 1);
        assert(s.take(k + 1).drop_last() =~= s.take(k));
        assert(s.take(k + 1).last() == s[k]);
        lemma_digits_val_nonneg(s.take(k));
        assert(digits_val(s.take(k + 1)) == digits_val(s.take(k)) * 10 + digit_val(s[k]));
        assert(digits_val(s.take(k)) * 10 >= digits_val(s.take(k)));
    }
}

pub proof fn lemma_digits_val_nonneg(s: Seq<char>)
    requires
        all_digits(s),
    ensures
        digits_val(s) >= 0,
    decreases s.len(),
{
    if s.len() > 0 {
        assert(all_digits(s.drop_last())) by {
            assert(forall|i: int|
                0 <= i < s.drop_last().len() ==> is_digit(#[trigger] s.drop_last()[i]));
        }
        lemma_digits_val_nonneg(s.drop_last());
        assert(is_digit(s.last()));
    }
}

// ------------------------------- escaping ----------------------------------

/// How one character of a name appears inside the quoted value: backslash,
/// quote and newline are escaped, everything else stands for itself.
pub open spec fn esc_char(c: char) -> Seq<char> {
    if c == '\\' {
        seq!['\\', '\\']
    } else if c == '"' {
        seq!['\\', '"']
    } else if c == '\n' {
        seq!['\\', 'n']
    } else {
        seq![c]
    }
}

pub open spec fn escape_chars(s: Seq<char>) -> Seq<char>
    decreases s.len(),
{
    if s.len() == 0 {
        Seq::empty()
    } else {
        esc_char(s[0]) + escape_chars(s.drop_first())
    }
}

/// Undoes `escape_chars`; rejects stray quotes, stray final backslashes and
/// unknown escapes.
pub open spec fn unescape_chars(s: Seq<char>) -> Option<Seq<char>>
    decreases s.len(),
{
    if s.len() == 0 {
        Some(Seq::empty())
    } else if s[0] == '\\' {
        if s.len() >= 2 {
            let d = if s[1] == '\\' {
                Some('\\')
            } else if s[1] == '"' {
                Some('"')
            } else if s[1] == 'n' {
                Some('\n')
            } else {
                None
            };
            match (d, unescape_chars(s.skip(2))) {
                (Some(c), Some(r)) => Some(seq![c] + r),
                _ => None,
            }
        } else {
            None
        }
    } else if s[0] == '"' {
        None
    } else {
        match unescape_chars(s.drop_first()) {
            Some(r) => Some(seq![s[0]] + r),
            None => None,
        }
    }
}

pub proof fn lemma_escape_concat(a: Seq<char>, b: Seq<char>)
    ensures
        escape_chars(a + b) == escape_chars(a) + escape_chars(b),
    decreases a.len(),
{
    if a.len() == 0 {
        assert(a + b =~= b);
        assert(escape_chars(a) + escape_chars(b) =~= escape_chars(b));
    } else {
        lemma_escape_concat(a.drop_first(), b);
        assert((a + b).drop_first() =~= a.drop_first() + b);
        assert((a + b)[0] == a[0]);
        assert(escape_chars(a + b) =~= esc_char(a[0]) + (escape_chars(a.drop_first())
            + escape_chars(b)));
        assert(esc_char(a[0]) + (escape_chars(a.drop_first()) + escape_chars(b)) =~= (esc_char(
            a[0],
        ) + escape_chars(a.drop_first())) + escape_chars(b));
    }
}

/// Escaping never produces a newline, so a name stays on its line.
pub proof fn lemma_escape_no_newline(s: Seq<char>)
    ensures
        forall|i: int| 0 <= i < escape_chars(s).len() ==> #[trigger] escape_chars(s)[i] != '\n',
    decreases s.len(),
{
    if s.len() > 0 {
        lemma_escape_no_newline(s.drop_first());
        assert forall|i: int|
            0 <= i < escape_chars(s).len() implies #[trigger] escape_chars(s)[i] != '\n' by {
            assert(escape_chars(s) == esc_char(s[0]) + escape_chars(s.drop_first()));
            let k = esc_char(s[0]).len() as int;
            if i < k {
                assert(escape_chars(s)[i] == esc_char(s[0])[i]);
            } else {
                assert(escape_chars(s)[i] == escape_chars(s.drop_first())[i - k]);
            }
        }
    }
}

/// Unescaping undoes escaping: the name round-trips exactly.
pub proof fn lemma_unescape_escape(s: Seq<char>)
    ensures
        unescape_chars(escape_chars(s)) == Some(s),
    decreases s.len(),
{
    if s.len() == 0 {
        assert(escape_chars(s) =~= Seq::<char>::empty());
    } else {
        lemma_unescape_escape(s.drop_first());
        let c = s[0];
        let e = escape_chars(s);
        assert(e =~= esc_char(c) + escape_chars(s.drop_first()));
        if c == '\\' || c == '"' || c == '\n' {
            assert(e.len() >= 2);
            assert(e[0] == '\\');
            assert(e.skip(2) =~= escape_chars(s.drop_first()));
            assert(unescape_chars(e) == Some(seq![c] + s.drop_first()));
            assert(seq![c] + s.drop_first() =~= s);
        } else {
            assert(e[0] == c);
            assert(e.drop_first() =~= escape_chars(s.drop_first()));
            assert(unescape_chars(e) == Some(seq![c] + s.drop_first()));
            assert(seq![c] + s.drop_first() =~= s);
        }
    }
}

// ------------------------------ line shapes --------------------------------

pub open spec fn newline() -> Seq<char> {
    seq!['\n']
}

pub open spec fn id_line(id: int) -> Seq<char> {
    id_key() + seq!['='] + digits_of(id)
}

pub open spec fn name_line(name: Seq<char>) -> Seq<char> {
    name_key() + seq!['=', '"'] + escape_chars(name) + seq!['"']
}

pub open spec fn done_line(done: bool) -> Seq<char> {
    done_key() + seq!['='] + if done {
        true_chars()
    } else {
        false_chars()
    }
}

pub open spec fn task_lines(t: TaskView) -> Seq<Seq<char>> {
    seq![header_chars(), id_line(t.id), name_line(t.name), done_line(t.done)]
}

/// The text of one task: its four lines, each ended by a newline.
pub open spec fn render_task(t: TaskView) -> Seq<char> {
    header_chars() + newline() + id_line(t.id) + newline() + name_line(t.name) + newline()
        + done_line(t.done) + newline()
}

/// The text of the whole store: the tasks' blocks, in order.
pub open spec fn spec_render(ts: Seq<TaskView>) -> Seq<char>
    decreases ts.len(),
{
    if ts.len() == 0 {
        Seq::empty()
    } else {
        render_task(ts[0]) + spec_render(ts.drop_first())
    }
}

// --------------------------- splitting into lines --------------------------

/// The position of the first occurrence of `c` in `s`, or `s.len()` when `c`
/// does not occur.
pub open spec fn first_pos(s: Seq<char>, c: char) -> nat
    decreases s.len(),
{
    if s.len() == 0 {
        0
    } else if s[0] == c {
        0
    } else {
        (1 + first_pos(s.drop_first(), c)) as nat
    }
}

/// The first occurrence in a concatenation whose left part is clean of `c`
/// and whose right part starts with `c` sits exactly at the seam.
pub proof fn lemma_first_pos_concat(a: Seq<char>, b: Seq<char>, c: char)
    requires
        forall|i: int| 0 <= i < a.len() ==> a[i] != c,
        b.len() > 0,
        b[0] == c,
    ensures
        first_pos(a + b, c) == a.len(),
    decreases a.len(),
{
    if a.len() == 0 {
        assert(a + b =~= b);
    } else {
        assert(forall|i: int| 0 <= i < a.drop_first().len() ==> a.drop_first()[i] != c);
        lemma_first_pos_concat(a.drop_first(), b, c);
        assert((a + b).drop_first() =~= a.drop_first() + b);
        assert((a + b)[0] == a[0]);
    }
}

/// `s` cut at every newline; the piece after the final newline (possibly
/// empty) is included, so a text that ends with a newline ends in an empty
/// line.
pub open spec fn split_lines(s: Seq<char>) -> Seq<Seq<char>>
    decreases s.len(),
{
    let k = first_pos(s, '\n');
    if k >= s.len() {
        seq![s]
    } else {
        seq![s.take(k as int)] + split_lines(s.skip(k as int + 1))
    }
}

pub open spec fn no_newline(s: Seq<char>) -> bool {
    forall|i: int| 0 <= i < s.len() ==> s[i] != '\n'
}

/// Splitting a newline-free line, a newline, and a remainder yields that line
/// followed by the split of the remainder.
pub proof fn lemma_split_lines_line(l: Seq<char>, rest: Seq<char>)
    requires
        no_newline(l),
    ensures
        split_lines(l + newline() + rest) == seq![l] + split_lines(rest),
{
    let s = l + newline() + rest;
    assert(s =~= l + (newline() + rest));
    assert((newline() + rest)[0] == '\n');
    lemma_first_pos_concat(l, newline() + rest, '\n');
    let k = first_pos(s, '\n');
    assert(k == l.len());
    assert(k < s.len());
    assert(s.take(k as int) =~= l);
    assert(s.skip(k as int + 1) =~= rest);
    assert(split_lines(s) =~= seq![l] + split_lines(rest));
}

// --------------------------------- trim ------------------------------------

pub open spec fn is_space(c: char) -> bool {
    c == ' ' || c == '\t'
}

/// How many spaces and tabs `s` starts with.
pub open spec fn lead_spaces(s: Seq<char>) -> nat
    decreases s.len(),
{
    if s.len() > 0 && is_space(s[0]) {
        (1 + lead_spaces(s.drop_first())) as nat
    } else {
        0
    }
}

/// How many spaces and tabs `s` ends with.
pub open spec fn trail_spaces(s: Seq<char>) -> nat
    decreases s.len(),
{
    if s.len() > 0 && is_space(s.last()) {
        (1 + trail_spaces(s.drop_last())) as nat
    } else {
        0
    }
}

/// `s` without its leading and trailing spaces and tabs.
pub open spec fn trim(s: Seq<char>) -> Seq<char> {
    let rest = s.skip(lead_spaces(s) as int);
    rest.take(rest.len() - trail_spaces(rest))
}

/// A sequence with no space at either end is its own trim.
pub proof fn lemma_trim_id(s: Seq<char>)
    requires
        s.len() == 0 || (!is_space(s[0]) && !is_space(s.last())),
    ensures
        trim(s) == s,
{
    assert(lead_spaces(s) == 0);
    assert(s.skip(0) =~= s);
    assert(trail_spaces(s) == 0);
    assert(s.take(s.len() as int) =~= s);
}

// ------------------------------ reading lines -------------------------------

/// A block under construction: the fields seen so far.
#[verifier::ext_equal]
pub ghost struct PartialTask {
    pub id: Option<int>,
    pub name: Option<Seq<char>>,
    pub done: Option<bool>,
}

/// The reader's state: the finished tasks and the block under construction,
/// if a header has been seen.
#[verifier::ext_equal]
pub ghost struct ParseAcc {
    pub done_tasks: Seq<TaskView>,
    pub cur: Option<PartialTask>,
}

pub open spec fn empty_partial() -> PartialTask {
    PartialTask { id: None, name: None, done: None }
}

pub open spec fn full_partial(t: TaskView) -> PartialTask {
    PartialTask { id: Some(t.id), name: Some(t.name), done: Some(t.done) }
}

pub open spec fn init_acc() -> ParseAcc {
    ParseAcc { done_tasks: Seq::empty(), cur: None }
}

/// A block is complete only when all three fields were given.
pub open spec fn finish_partial(p: PartialTask) -> Option<TaskView> {
    match (p.id, p.name, p.done) {
        (Some(i), Some(n), Some(d)) => Some(TaskView { id: i, name: n, done: d }),
        _ => None,
    }
}

/// Closes the block under construction, if any; fails when it is incomplete.
pub open spec fn close_cur(acc: ParseAcc) -> Option<Seq<TaskView>> {
    match acc.cur {
        None => Some(acc.done_tasks),
        Some(p) => match finish_partial(p) {
            Some(t) => Some(acc.done_tasks.push(t)),
            None => None,
        },
    }
}

/// The value of an `id` field: a non-empty digit string whose value leaves
/// room for the allocator to move past it.
pub open spec fn parse_id_value(v: Seq<char>) -> Option<int> {
    if v.len() > 0 && all_digits(v) && digits_val(v) < usize::MAX {
        Some(digits_val(v))
    } else {
        None
    }
}

/// The value of a `name` field: a quoted, escaped string.
pub open spec fn parse_name_value(v: Seq<char>) -> Option<Seq<char>> {
    if v.len() >= 2 && v[0] == '"' && v.last() == '"' {
        unescape_chars(v.subrange(1, v.len() - 1))
    } else {
        None
    }
}

/// The value of a `done` field.
pub open spec fn parse_bool_value(v: Seq<char>) -> Option<bool> {
    if v == true_chars() {
        Some(true)
    } else if v == false_chars() {
        Some(false)
    } else {
        None
    }
}

/// Reading one line: blank lines are skipped; a header closes the previous
/// block and opens a new one; a `key=value` line fills a field of the open
/// block, each field at most once. Anything else is an error.
pub open spec fn step_line(acc: ParseAcc, line: Seq<char>) -> Option<ParseAcc> {
    let t = trim(line);
    if t.len() == 0 {
        Some(acc)
    } else if t == header_chars() {
        match close_cur(acc) {
            Some(ts) => Some(ParseAcc { done_tasks: ts, cur: Some(empty_partial()) }),
            None => None,
        }
    } else {
        match acc.cur {
            None => None,
            Some(p) => {
                let k = first_pos(t, '=');
                if k >= t.len() {
                    None
                } else {
                    let key = trim(t.take(k as int));
                    let v = trim(t.skip(k as int + 1));
                    if key == id_key() {
                        match (p.id, parse_id_value(v)) {
                            (None, Some(n)) => Some(
                                ParseAcc { cur: Some(PartialTask { id: Some(n), ..p }), ..acc },
                            ),
                            _ => None,
                        }
                    } else if key == name_key() {
                        match (p.name, parse_name_value(v)) {
                            (None, Some(n)) => Some(
                                ParseAcc { cur: Some(PartialTask { name: Some(n), ..p }), ..acc },
                            ),
                            _ => None,
                        }
                    } else if key == done_key() {
                        match (p.done, parse_bool_value(v)) {
                            (None, Some(d)) => Some(
                                ParseAcc { cur: Some(PartialTask { done: Some(d), ..p }), ..acc },
                            ),
                            _ => None,
                        }
                    } else {
                        None
                    }
                }
            },
        }
    }
}

/// Reading a sequence of lines, left to right.
pub open spec fn parse_lines_from(acc: ParseAcc, lines: Seq<Seq<char>>) -> Option<ParseAcc>
    decreases lines.len(),
{
    if lines.len() == 0 {
        Some(acc)
    } else {
        match step_line(acc, lines[0]) {
            Some(a2) => parse_lines_from(a2, lines.drop_first()),
            None => None,
        }
    }
}

/// The whole store read back from its text: split into lines, read, and the
/// final block closed.
pub open spec fn spec_parse(s: Seq<char>) -> Option<Seq<TaskView>> {
    match parse_lines_from(init_acc(), split_lines(s)) {
        Some(acc) => close_cur(acc),
        None => None,
    }
}

/// Reading distributes over concatenation of line sequences.
pub proof fn lemma_parse_lines_concat(acc: ParseAcc, l1: Seq<Seq<char>>, l2: Seq<Seq<char>>)
    ensures
        parse_lines_from(acc, l1 + l2) == match parse_lines_from(acc, l1) {
            Some(a2) => parse_lines_from(a2, l2),
            None => None,
        },
    decreases l1.len(),
{
    if l1.len() == 0 {
        assert(l1 + l2 =~= l2);
    } else {
        assert((l1 + l2)[0] == l1[0]);
        assert((l1 + l2).len() > 0);
        match step_line(acc, l1[0]) {
            Some(a2) => {
                assert((l1 + l2).drop_first() =~= l1.drop_first() + l2);
                lemma_parse_lines_concat(a2, l1.drop_first(), l2);
            },
            None => {},
        }
    }
}

// ------------------------------- rendering ---------------------------------

pub proof fn lemma_spec_render_concat(a: Seq<TaskView>, b: Seq<TaskView>)
    ensures
        spec_render(a + b) == spec_render(a) + spec_render(b),
    decreases a.len(),
{
    if a.len() == 0 {
        assert(a + b =~= b);
        assert(spec_render(a) + spec_render(b) =~= spec_render(b));
    } else {
        lemma_spec_render_concat(a.drop_first(), b);
        assert((a + b)[0] == a[0]);
        assert((a + b).drop_first() =~= a.drop_first() + b);
        assert(spec_render(a + b) =~= render_task(a[0]) + (spec_render(a.drop_first())
            + spec_render(b)));
        assert(render_task(a[0]) + (spec_render(a.drop_first()) + spec_render(b)) =~= (render_task(
            a[0],
        ) + spec_render(a.drop_first())) + spec_render(b));
    }
}

fn digit_to_char(d: usize) -> (c: char)
    requires
        d < 10,
    ensures
        c == digit_char(d as int),
{
    match d {
        0 => '0',
        1 => '1',
        2 => '2',
        3 => '3',
        4 => '4',
        5 => '5',
        6 => '6',
        7 => '7',
        8 => '8',
        _ => '9',
    }
}

fn push_digits(out: &mut Vec<char>, n: usize)
    ensures
        final(out)@ == old(out)@ + digits_of(n as int),
    decreases n,
{
    let ghost s0 = out@;
    if n < 10 {
        out.push(digit_to_char(n));
        proof {
            assert(out@ =~= s0 + digits_of(n as int));
        }
    } else {
        push_digits(out, n / 10);
        out.push(digit_to_char(n % 10));
        proof {
            assert(out@ =~= s0 + digits_of(n as int));
        }
    }
}

fn push_escaped(out: &mut Vec<char>, s: &Vec<char>)
    ensures
        final(out)@ == old(out)@ + escape_chars(s@),
{
    let ghost s0 = out@;
    let mut i: usize = 0;
    while i < s.len()
        invariant
            i <= s.len(),
            out@ == s0 + escape_chars(s@.take(i as int)),
        decreases s@.len() - i,
    {
        let ghost before = out@;
        let c = s[i];
        if c == '\\' {
            out.push('\\');
            out.push('\\');
        } else if c == '"' {
            out.push('\\');
            out.push('"');
        } else if c == '\n' {
            out.push('\\');
            out.push('n');
        } else {
            out.push(c);
        }
        proof {
            assert(out@ =~= before + esc_char(s@[i as int]));
            lemma_escape_concat(s@.take(i as int), seq![s@[i as int]]);
            assert(s@.take(i as int + 1) =~= s@.take(i as int) + seq![s@[i as int]]);
            assert(escape_chars(seq![s@[i as int]]) =~= esc_char(s@[i as int])) by {
                assert(seq![s@[i as int]].drop_first() =~= Seq::<char>::empty());
                assert(escape_chars(Seq::<char>::empty()) =~= Seq::<char>::empty());
            }
            assert(out@ =~= s0 + escape_chars(s@.take(i as int + 1)));
        }
        i = i + 1;
    }
    proof {
        assert(s@.take(s@.len() as int) =~= s@);
    }
}

#[verifier::rlimit(100)]
fn push_task(out: &mut Vec<char>, t: &Task)
    ensures
        final(out)@ == old(out)@ + render_task(t@),
{
    let ghost s0 = out@;
    out.push('[');
    out.push('[');
    out.push('t');
    out.push('a');
    out.push('s');
    out.push('k');
    out.push('s');
    out.push(']');
    out.push(']');
    out.push('\n');
    proof {
        assert(out@ =~= s0 + header_chars() + newline());
    }
    let ghost s1 = out@;
    out.push('i');
    out.push('d');
    out.push('=');
    push_digits(out, t.id);
    out.push('\n');
    proof {
        assert(out@ =~= s1 + id_line(t@.id) + newline());
    }
    let ghost s2 = out@;
    out.push('n');
    out.push('a');
    out.push('m');
    out.push('e');
    out.push('=');
    out.push('"');
    let cs = str_to_chars(t.name.as_str());
    push_escaped(out, &cs);
    out.push('"');
    out.push('\n');
    proof {
        assert(out@ =~= s2 + name_line(t@.name) + newline());
    }
    let ghost s3 = out@;
    out.push('d');
    out.push('o');
    out.push('n');
    out.push('e');
    out.push('=');
    if t.done {
        out.push('t');
        out.push('r');
        out.push('u');
        out.push('e');
    } else {
        out.push('f');
        out.push('a');
        out.push('l');
        out.push('s');
        out.push('e');
    }
    out.push('\n');
    proof {
        assert(out@ =~= s3 + done_line(t@.done) + newline());
        assert(out@ =~= s0 + render_task(t@));
    }
}

/// The text form of the whole list: one block per task, in order.
pub fn render_store(tasks: &Vec<Task>) -> (r: String)
    ensures
        r@ == spec_render(views_of(tasks@)),
{
    let ghost vs = views_of(tasks@);
    let mut out: Vec<char> = Vec::new();
    let mut i: usize = 0;
    while i < tasks.len()
        invariant
            i <= tasks.len(),
            vs == views_of(tasks@),
            out@ == spec_render(vs.take(i as int)),
        decreases tasks@.len() - i,
    {
        push_task(&mut out, &tasks[i]);
        proof {
            assert(vs[i as int] == tasks@[i as int]@);
            lemma_spec_render_concat(vs.take(i as int), seq![vs[i as int]]);
            assert(vs.take(i as int + 1) =~= vs.take(i as int) + seq![vs[i as int]]);
            assert(spec_render(seq![vs[i as int]]) =~= render_task(vs[i as int])) by {
                assert(seq![vs[i as int]].drop_first() =~= Seq::<TaskView>::empty());
                assert(spec_render(Seq::<TaskView>::empty()) =~= Seq::<char>::empty());
            }
        }
        i = i + 1;
    }
    proof {
        assert(vs.take(tasks@.len() as int) =~= vs);
    }
    chars_to_string(&out)
}

// -------------------------------- reading ----------------------------------

/// The views of a sequence of character vectors.
pub open spec fn lines_of(ls: Seq<Vec<char>>) -> Seq<Seq<char>> {
    ls.map_values(|l: Vec<char>| l@)
}

fn sub_vec(v: &Vec<char>, a: usize, b: usize) -> (r: Vec<char>)
    requires
        a <= b <= v.len(),
    ensures
        r@ == v@.subrange(a as int, b as int),
{
    let mut r: Vec<char> = Vec::new();
    let mut k: usize = a;
    while k < b
        invariant
            a <= k <= b <= v.len(),
            r@ == v@.subrange(a as int, k as int),
        decreases b - k,
    {
        r.push(v[k]);
        proof {
            assert(v@.subrange(a as int, k as int + 1) =~= v@.subrange(a as int, k as int).push(
                v@[k as int],
            ));
        }
        k = k + 1;
    }
    r
}

fn trim_exec(v: &Vec<char>) -> (r: Vec<char>)
    ensures
        r@ == trim(v@),
{
    let mut a: usize = 0;
    proof {
        assert(v@.skip(0) =~= v@);
    }
    while a < v.len() && (v[a] == ' ' || v[a] == '\t')
        invariant
            a <= v.len(),
            lead_spaces(v@) == a + lead_spaces(v@.skip(a as int)),
        decreases v@.len() - a,
    {
        proof {
            assert(v@.skip(a as int)[0] == v@[a as int]);
            assert(v@.skip(a as int).drop_first() =~= v@.skip(a as int + 1));
        }
        a = a + 1;
    }
    proof {
        if a < v.len() {
            assert(v@.skip(a as int)[0] == v@[a as int]);
        }
        assert(lead_spaces(v@.skip(a as int)) == 0);
        assert(lead_spaces(v@) == a);
    }
    let ghost rest = v@.skip(a as int);
    let mut b: usize = v.len();
    proof {
        assert(rest.take((b - a) as int) =~= rest);
    }
    while b > a && (v[b - 1] == ' ' || v[b - 1] == '\t')
        invariant
            a <= b <= v.len(),
            trail_spaces(rest) == (v@.len() - b) + trail_spaces(rest.take((b - a) as int)),
            rest == v@.skip(a as int),
        decreases b,
    {
        proof {
            assert(rest.take((b - a) as int).last() == v@[b as int - 1]);
            assert(rest.take((b - a) as int).drop_last() =~= rest.take((b - 1 - a) as int));
        }
        b = b - 1;
    }
    proof {
        if b > a {
            assert(rest.take((b - a) as int).last() == v@[b as int - 1]);
        }
        assert(trail_spaces(rest.take((b - a) as int)) == 0);
        assert(trail_spaces(rest) == v@.len() - b);
        assert(rest.take(rest.len() - trail_spaces(rest)) =~= v@.subrange(a as int, b as int));
    }
    sub_vec(v, a, b)
}

fn split_lines_exec(v: &Vec<char>) -> (r: Vec<Vec<char>>)
    ensures
        lines_of(r@) == split_lines(v@),
{
    let mut r: Vec<Vec<char>> = Vec::new();
    let mut start: usize = 0;
    let mut finished: bool = false;
    proof {
        assert(lines_of(r@) =~= Seq::<Seq<char>>::empty());
        assert(v@.skip(0) =~= v@);
    }
    while !finished
        invariant
            start <= v.len(),
            !finished ==> split_lines(v@) == lines_of(r@) + split_lines(v@.skip(start as int)),
            finished ==> lines_of(r@) == split_lines(v@),
        decreases v@.len() - start + (if finished {
            0int
        } else {
            1int
        }),
    {
        let ghost rest = v@.skip(start as int);
        let mut j: usize = start;
        proof {
            assert(rest.skip(0) =~= rest);
        }
        while j < v.len() && v[j] != '\n'
            invariant
                start <= j <= v.len(),
                rest == v@.skip(start as int),
                first_pos(rest, '\n') == (j - start) + first_pos(v@.skip(j as int), '\n'),
            decreases v@.len() - j,
        {
            proof {
                assert(v@.skip(j as int)[0] == v@[j as int]);
                assert(v@.skip(j as int).drop_first() =~= v@.skip(j as int + 1));
            }
            j = j + 1;
        }
        let line = sub_vec(v, start, j);
        let ghost old_lines = lines_of(r@);
        r.push(line);
        proof {
            assert(lines_of(r@) =~= old_lines.push(line@));
        }
        if j >= v.len() {
            proof {
                assert(first_pos(v@.skip(j as int), '\n') == 0);
                assert(first_pos(rest, '\n') == rest.len());
                assert(line@ =~= rest);
                assert(split_lines(rest) =~= seq![rest]);
                assert(old_lines.push(rest) =~= old_lines + seq![rest]);
            }
            finished = true;
        } else {
            proof {
                assert(v@.skip(j as int)[0] == v@[j as int]);
                assert(first_pos(v@.skip(j as int), '\n') == 0);
                let k = first_pos(rest, '\n');
                assert(k == j - start);
                assert(k < rest.len());
                assert(rest.take(k as int) =~= line@);
                assert(rest.skip(k as int + 1) =~= v@.skip(j as int + 1));
                assert(split_lines(rest) =~= seq![line@] + split_lines(v@.skip(j as int + 1)));
                assert(old_lines + (seq![line@] + split_lines(v@.skip(j as int + 1)))
                    =~= old_lines.push(line@) + split_lines(v@.skip(j as int + 1)));
            }
            start = j + 1;
        }
    }
    r
}

fn parse_digits_exec(v: &Vec<char>) -> (r: Option<usize>)
    ensures
        match r {
            Some(n) => parse_id_value(v@) == Some(n as int),
            None => parse_id_value(v@) is None,
        },
{
    if v.len() == 0 {
        return None;
    }
    let mut acc: usize = 0;
    let mut i: usize = 0;
    proof {
        assert(v@.take(0) =~= Seq::<char>::empty());
    }
    while i < v.len()
        invariant
            i <= v.len(),
            forall|j: int| 0 <= j < i ==> is_digit(#[trigger] v@[j]),
            acc == digits_val(v@.take(i as int)),
            acc < usize::MAX,
        decreases v@.len() - i,
    {
        let c = v[i];
        if c < '0' || c > '9' {
            proof {
                assert(!is_digit(v@[i as int]));
                assert(!all_digits(v@));
            }
            return None;
        }
        let d = (c as usize) - 48;
        proof {
            assert(is_digit(v@[i as int]));
            assert(digit_val(v@[i as int]) == d);
            assert(v@.take(i as int + 1).drop_last() =~= v@.take(i as int));
            assert(v@.take(i as int + 1).last() == v@[i as int]);
        }
        if acc > (usize::MAX - 1 - d) / 10 {
            proof {
                let m = usize::MAX - 1 - d;
                assert(m == (m / 10) * 10 + m % 10);
                assert(acc * 10 + d > usize::MAX - 1);
                assert(digits_val(v@.take(i as int + 1)) == acc * 10 + d);
                if all_digits(v@) {
                    lemma_digits_val_mono(v@, i + 1);
                    assert(digits_val(v@) >= usize::MAX);
                }
            }
            return None;
        }
        proof {
            let m = usize::MAX - 1 - d;
            assert(m == (m / 10) * 10 + m % 10);
            assert(acc * 10 + d <= usize::MAX - 1);
        }
        acc = acc * 10 + d;
        i = i + 1;
    }
    proof {
        assert(v@.take(v@.len() as int) =~= v@);
        assert(all_digits(v@));
    }
    Some(acc)
}

fn parse_name_exec(v: &Vec<char>) -> (r: Option<String>)
    ensures
        match r {
            Some(n) => parse_name_value(v@) == Some(n@),
            None => parse_name_value(v@) is None,
        },
{
    if v.len() < 2 {
        return None;
    }
    if v[0] != '"' || v[v.len() - 1] != '"' {
        return None;
    }
    let end = v.len() - 1;
    let ghost inner = v@.subrange(1, v@.len() - 1);
    let mut out: Vec<char> = Vec::new();
    let mut i: usize = 1;
    proof {
        assert(v@.subrange(1, end as int) =~= inner);
    }
    while i < end
        invariant
            1 <= i <= end,
            end == v@.len() - 1,
            v@.len() >= 2,
            inner == v@.subrange(1, v@.len() - 1),
            v@[0] == '"',
            v@[v@.len() - 1] == '"',
            match unescape_chars(v@.subrange(i as int, end as int)) {
                Some(r2) => unescape_chars(inner) == Some(out@ + r2),
                None => unescape_chars(inner) is None,
            },
        decreases end - i,
    {
        let ghost tail = v@.subrange(i as int, end as int);
        let c = v[i];
        proof {
            assert(tail[0] == c);
        }
        if c == '\\' {
            if i + 1 >= end {
                proof {
                    assert(tail.len() == 1);
                    assert(unescape_chars(tail) is None);
                }
                return None;
            }
            let e = v[i + 1];
            proof {
                assert(tail[1] == e);
                assert(tail.len() >= 2);
            }
            if e != '\\' && e != '"' && e != 'n' {
                proof {
                    assert(unescape_chars(tail) is None);
                }
                return None;
            }
            let d: char = if e == '\\' {
                '\\'
            } else if e == '"' {
                '"'
            } else {
                '\n'
            };
            out.push(d);
            proof {
                let ntail = v@.subrange(i as int + 2, end as int);
                assert(tail.skip(2) =~= ntail);
                match unescape_chars(ntail) {
                    Some(r2) => {
                        assert(unescape_chars(tail) == Some(seq![d] + r2));
                        assert(out@ + r2 =~= out@.drop_last() + (seq![d] + r2));
                    },
                    None => {
                        assert(unescape_chars(tail) is None);
                    },
                }
            }
            i = i + 2;
        } else if c == '"' {
            proof {
                assert(unescape_chars(tail) is None);
            }
            return None;
        } else {
            out.push(c);
            proof {
                let ntail = v@.subrange(i as int + 1, end as int);
                assert(tail.drop_first() =~= ntail);
                match unescape_chars(ntail) {
                    Some(r2) => {
                        assert(unescape_chars(tail) == Some(seq![c] + r2));
                        assert(out@ + r2 =~= out@.drop_last() + (seq![c] + r2));
                    },
                    None => {
                        assert(unescape_chars(tail) is None);
                    },
                }
            }
            i = i + 1;
        }
    }
    proof {
        assert(v@.subrange(i as int, end as int).len() == 0);
        assert(unescape_chars(v@.subrange(i as int, end as int)) == Some(Seq::<char>::empty()));
        assert(out@ + Seq::<char>::empty() =~= out@);
    }
    Some(chars_to_string(&out))
}

fn is_header(v: &Vec<char>) -> (r: bool)
    ensures
        r == (v@ == header_chars()),
{
    proof {
        assert(header_chars().len() == 9);
        assert(header_chars()[0] == '[');
        assert(header_chars()[1] == '[');
        assert(header_chars()[2] == 't');
        assert(header_chars()[3] == 'a');
        assert(header_chars()[4] == 's');
        assert(header_chars()[5] == 'k');
        assert(header_chars()[6] == 's');
        assert(header_chars()[7] == ']');
        assert(header_chars()[8] == ']');
    }
    if v.len() != 9 {
        return false;
    }
    let ok = v[0] == '[' && v[1] == '[' && v[2] == 't' && v[3] == 'a' && v[4] == 's' && v[5] == 'k'
        && v[6] == 's' && v[7] == ']' && v[8] == ']';
    proof {
        if ok {
            assert(v@ =~= header_chars());
        }
    }
    ok
}

fn is_id_key(v: &Vec<char>) -> (r: bool)
    ensures
        r == (v@ == id_key()),
{
    proof {
        assert(id_key().len() == 2);
        assert(id_key()[0] == 'i');
        assert(id_key()[1] == 'd');
    }
    if v.len() != 2 {
        return false;
    }
    let ok = v[0] == 'i' && v[1] == 'd';
    proof {
        if ok {
            assert(v@ =~= id_key());
        }
    }
    ok
}

fn is_name_key(v: &Vec<char>) -> (r: bool)
    ensures
        r == (v@ == name_key()),
{
    proof {
        assert(name_key().len() == 4);
        assert(name_key()[0] == 'n');
        assert(name_key()[1] == 'a');
        assert(name_key()[2] == 'm');
        assert(name_key()[3] == 'e');
    }
    if v.len() != 4 {
        return false;
    }
    let ok = v[0] == 'n' && v[1] == 'a' && v[2] == 'm' && v[3] == 'e';
    proof {
        if ok {
            assert(v@ =~= name_key());
        }
    }
    ok
}

fn is_done_key(v: &Vec<char>) -> (r: bool)
    ensures
        r == (v@ == done_key()),
{
    proof {
        assert(done_key().len() == 4);
        assert(done_key()[0] == 'd');
        assert(done_key()[1] == 'o');
        assert(done_key()[2] == 'n');
        assert(done_key()[3] == 'e');
    }
    if v.len() != 4 {
        return false;
    }
    let ok = v[0] == 'd' && v[1] == 'o' && v[2] == 'n' && v[3] == 'e';
    proof {
        if ok {
            assert(v@ =~= done_key());
        }
    }
    ok
}

fn parse_bool_exec(v: &Vec<char>) -> (r: Option<bool>)
    ensures
        match r {
            Some(b) => parse_bool_value(v@) == Some(b),
            None => parse_bool_value(v@) is None,
        },
{
    proof {
        assert(true_chars().len() == 4);
        assert(true_chars()[0] == 't');
        assert(true_chars()[1] == 'r');
        assert(true_chars()[2] == 'u');
        assert(true_chars()[3] == 'e');
        assert(false_chars().len() == 5);
        assert(false_chars()[0] == 'f');
        assert(false_chars()[1] == 'a');
        assert(false_chars()[2] == 'l');
        assert(false_chars()[3] == 's');
        assert(false_chars()[4] == 'e');
    }
    if v.len() == 4 && v[0] == 't' && v[1] == 'r' && v[2] == 'u' && v[3] == 'e' {
        proof {
            assert(v@ =~= true_chars());
        }
        Some(true)
    } else if v.len() == 5 && v[0] == 'f' && v[1] == 'a' && v[2] == 'l' && v[3] == 's' && v[4]
        == 'e' {
        proof {
            assert(v@ =~= false_chars());
        }
        Some(false)
    } else {
        None
    }
}

/// How reading one more line extends a successful prefix read, and how a
/// failing line fails the whole text.
proof fn lemma_parse_take_succ(all: Seq<Seq<char>>, i: int, acc: ParseAcc)
    requires
        0 <= i < all.len(),
        parse_lines_from(init_acc(), all.take(i)) == Some(acc),
    ensures
        step_line(acc, all[i]) matches Some(a2) ==> parse_lines_from(init_acc(), all.take(i + 1))
            == Some(a2),
        step_line(acc, all[i]) is None ==> parse_lines_from(init_acc(), all) is None,
{
    assert(all.take(i + 1) =~= all.take(i) + seq![all[i]]);
    lemma_parse_lines_concat(init_acc(), all.take(i), seq![all[i]]);
    assert(seq![all[i]].drop_first() =~= Seq::<Seq<char>>::empty());
    assert(seq![all[i]][0] == all[i]);
    match step_line(acc, all[i]) {
        Some(a2) => {
            assert(parse_lines_from(a2, Seq::<Seq<char>>::empty()) == Some(a2));
            assert(parse_lines_from(acc, seq![all[i]]) == Some(a2));
        },
        None => {
            assert(parse_lines_from(acc, seq![all[i]]) is None);
            assert(all =~= all.take(i + 1) + all.skip(i + 1));
            lemma_parse_lines_concat(init_acc(), all.take(i + 1), all.skip(i + 1));
        },
    }
}

/// The reader's state as the abstract accumulator.
spec fn acc_of(
    done: Seq<Task>,
    has_cur: bool,
    cid: Option<usize>,
    cname: Option<String>,
    cdone: Option<bool>,
) -> ParseAcc {
    ParseAcc {
        done_tasks: views_of(done),
        cur: if has_cur {
            Some(
                PartialTask {
                    id: match cid {
                        Some(n) => Some(n as int),
                        None => None,
                    },
                    name: match cname {
                        Some(n) => Some(n@),
                        None => None,
                    },
                    done: cdone,
                },
            )
        } else {
            None
        },
    }
}

/// Reads the store's text back into tasks; `None` when the text is not a
/// well-formed store.
#[verifier::rlimit(100)]
pub fn parse_store(s: &str) -> (r: Option<Tasks>)
    ensures
        match r {
            Some(ts) => spec_parse(s@) == Some(views_of(ts.tasks@)),
            None => spec_parse(s@) is None,
        },
{
    let cs = str_to_chars(s);
    let lines = split_lines_exec(&cs);
    let ghost all = lines_of(lines@);
    let mut done_vec: Vec<Task> = Vec::new();
    let mut has_cur: bool = false;
    let mut cid: Option<usize> = None;
    let mut cname: Option<String> = None;
    let mut cdone: Option<bool> = None;
    let mut i: usize = 0;
    proof {
        assert(all.take(0) =~= Seq::<Seq<char>>::empty());
        assert(acc_of(done_vec@, has_cur, cid, cname, cdone) =~= init_acc());
    }
    while i < lines.len()
        invariant
            i <= lines.len(),
            all == lines_of(lines@),
            all == split_lines(s@),
            parse_lines_from(init_acc(), all.take(i as int)) == Some(
                acc_of(done_vec@, has_cur, cid, cname, cdone),
            ),
        decreases lines@.len() - i,
    {
        let ghost acc = acc_of(done_vec@, has_cur, cid, cname, cdone);
        let ghost line_v = all[i as int];
        proof {
            assert(lines@[i as int]@ == all[i as int]);
        }
        let t = trim_exec(&lines[i]);
        if t.len() == 0 {
            proof {
                assert(step_line(acc, line_v) == Some(acc));
                lemma_parse_take_succ(all, i as int, acc);
            }
        } else if is_header(&t) {
            proof {
                assert(header_chars().len() == 9);
            }
            let ghost old_done = done_vec@;
            if has_cur {
                if !(cid.is_some() && cname.is_some() && cdone.is_some()) {
                    proof {
                        assert(close_cur(acc) is None);
                        assert(step_line(acc, line_v) is None);
                        lemma_parse_take_succ(all, i as int, acc);
                    }
                    return None;
                }
                let pid = cid.unwrap();
                let pname = cname.unwrap();
                let pdone = cdone.unwrap();
                done_vec.push(Task { id: pid, name: pname, done: pdone });
                proof {
                    assert(views_of(done_vec@) =~= views_of(old_done).push(
                        TaskView { id: pid as int, name: pname@, done: pdone },
                    ));
                }
            }
            has_cur = true;
            cid = None;
            cname = None;
            cdone = None;
            proof {
                let a2 = acc_of(done_vec@, has_cur, cid, cname, cdone);
                assert(a2.cur == Some(empty_partial()));
                assert(close_cur(acc) == Some(a2.done_tasks));
                assert(step_line(acc, line_v) == Some(a2));
                lemma_parse_take_succ(all, i as int, acc);
            }
        } else {
            if !has_cur {
                proof {
                    assert(step_line(acc, line_v) is None);
                    lemma_parse_take_succ(all, i as int, acc);
                }
                return None;
            }
            let mut j: usize = 0;
            proof {
                assert(t@.skip(0) =~= t@);
            }
            while j < t.len() && t[j] != '='
                invariant
                    j <= t.len(),
                    first_pos(t@, '=') == j + first_pos(t@.skip(j as int), '='),
                decreases t@.len() - j,
            {
                proof {
                    assert(t@.skip(j as int)[0] == t@[j as int]);
                    assert(t@.skip(j as int).drop_first() =~= t@.skip(j as int + 1));
                }
                j = j + 1;
            }
            if j >= t.len() {
                proof {
                    assert(first_pos(t@.skip(j as int), '=') == 0);
                    assert(first_pos(t@, '=') >= t@.len());
                    assert(step_line(acc, line_v) is None);
                    lemma_parse_take_succ(all, i as int, acc);
                }
                return None;
            }
            proof {
                assert(t@.skip(j as int)[0] == t@[j as int]);
                assert(first_pos(t@, '=') == j);
            }
            let kv = sub_vec(&t, 0, j);
            let keyv = trim_exec(&kv);
            let vv = sub_vec(&t, j + 1, t.len());
            let valv = trim_exec(&vv);
            proof {
                assert(t@.subrange(0, j as int) =~= t@.take(j as int));
                assert(t@.subrange(j as int + 1, t@.len() as int) =~= t@.skip(j as int + 1));
            }
            if is_id_key(&keyv) {
                if cid.is_some() {
                    proof {
                        assert(step_line(acc, line_v) is None);
                        lemma_parse_take_succ(all, i as int, acc);
                    }
                    return None;
                }
                match parse_digits_exec(&valv) {
                    Some(n) => {
                        cid = Some(n);
                        proof {
                            let a2 = acc_of(done_vec@, has_cur, cid, cname, cdone);
                            assert(step_line(acc, line_v) matches Some(x) && x =~= a2);
                            lemma_parse_take_succ(all, i as int, acc);
                        }
                    },
                    None => {
                        proof {
                            assert(step_line(acc, line_v) is None);
                            lemma_parse_take_succ(all, i as int, acc);
                        }
                        return None;
                    },
                }
            } else if is_name_key(&keyv) {
                if cname.is_some() {
                    proof {
                        assert(step_line(acc, line_v) is None);
                        lemma_parse_take_succ(all, i as int, acc);
                    }
                    return None;
                }
                match parse_name_exec(&valv) {
                    Some(nm) => {
                        cname = Some(nm);
                        proof {
                            let a2 = acc_of(done_vec@, has_cur, cid, cname, cdone);
                            assert(step_line(acc, line_v) matches Some(x) && x =~= a2);
                            lemma_parse_take_succ(all, i as int, acc);
                        }
                    },
                    None => {
                        proof {
                            assert(step_line(acc, line_v) is None);
                            lemma_parse_take_succ(all, i as int, acc);
                        }
                        return None;
                    },
                }
            } else if is_done_key(&keyv) {
                if cdone.is_some() {
                    proof {
                        assert(step_line(acc, line_v) is None);
                        lemma_parse_take_succ(all, i as int, acc);
                    }
                    return None;
                }
                match parse_bool_exec(&valv) {
                    Some(b) => {
                        cdone = Some(b);
                        proof {
                            let a2 = acc_of(done_vec@, has_cur, cid, cname, cdone);
                            assert(step_line(acc, line_v) matches Some(x) && x =~= a2);
                            lemma_parse_take_succ(all, i as int, acc);
                        }
                    },
                    None => {
                        proof {
                            assert(step_line(acc, line_v) is None);
                            lemma_parse_take_succ(all, i as int, acc);
                        }
                        return None;
                    },
                }
            } else {
                proof {
                    assert(step_line(acc, line_v) is None);
                    lemma_parse_take_succ(all, i as int, acc);
                }
                return None;
            }
        }
        i = i + 1;
    }
    proof {
        assert(all.take(i as int) =~= all);
    }
    let ghost acc = acc_of(done_vec@, has_cur, cid, cname, cdone);
    if has_cur {
        if !(cid.is_some() && cname.is_some() && cdone.is_some()) {
            proof {
                assert(close_cur(acc) is None);
                assert(spec_parse(s@) is None);
            }
            return None;
        }
        let pid = cid.unwrap();
        let pname = cname.unwrap();
        let pdone = cdone.unwrap();
        let ghost old_done = done_vec@;
        done_vec.push(Task { id: pid, name: pname, done: pdone });
        proof {
            assert(views_of(done_vec@) =~= views_of(old_done).push(
                TaskView { id: pid as int, name: pname@, done: pdone },
            ));
            assert(close_cur(acc) == Some(views_of(done_vec@)));
        }
    } else {
        proof {
            assert(close_cur(acc) == Some(views_of(done_vec@)));
        }
    }
    proof {
        assert(spec_parse(s@) == Some(views_of(done_vec@)));
    }
    Some(Tasks { tasks: done_vec })
}

// ------------------------------ round trip ---------------------------------

/// Every identifier is representable and leaves room for the allocator.
pub open spec fn ids_in_range(ts: Seq<TaskView>) -> bool {
    forall|i: int| 0 <= i < ts.len() ==> 0 <= (#[trigger] ts[i]).id < usize::MAX
}

/// The lines of all the tasks' blocks, in order.
pub open spec fn flat_task_lines(ts: Seq<TaskView>) -> Seq<Seq<char>>
    decreases ts.len(),
{
    if ts.len() == 0 {
        seq![]
    } else {
        task_lines(ts[0]) + flat_task_lines(ts.drop_first())
    }
}

proof fn lemma_task_lines_no_newline(t: TaskView)
    requires
        t.id >= 0,
    ensures
        no_newline(header_chars()),
        no_newline(id_line(t.id)),
        no_newline(name_line(t.name)),
        no_newline(done_line(t.done)),
{
    assert(no_newline(header_chars()));
    lemma_digits_of(t.id);
    assert forall|i: int| 0 <= i < id_line(t.id).len() implies #[trigger] id_line(t.id)[i]
        != '\n' by {
        let pre = id_key() + seq!['='];
        assert(id_line(t.id) == pre + digits_of(t.id));
        if i < 3 {
            assert(id_line(t.id)[i] == pre[i]);
        } else {
            assert(id_line(t.id)[i] == digits_of(t.id)[i - 3]);
            assert(is_digit(digits_of(t.id)[i - 3]));
        }
    }
    lemma_escape_no_newline(t.name);
    assert forall|i: int| 0 <= i < name_line(t.name).len() implies #[trigger] name_line(t.name)[i]
        != '\n' by {
        let pre = name_key() + seq!['=', '"'];
        let esc = escape_chars(t.name);
        assert(name_line(t.name) == (pre + esc) + seq!['"']);
        if i < 6 {
            assert(name_line(t.name)[i] == pre[i]);
        } else if i < 6 + esc.len() {
            assert(name_line(t.name)[i] == esc[i - 6]);
        } else {
            assert(name_line(t.name)[i] == '"');
        }
    }
    assert forall|i: int| 0 <= i < done_line(t.done).len() implies #[trigger] done_line(t.done)[i]
        != '\n' by {
        let pre = done_key() + seq!['='];
        let tail = if t.done {
            true_chars()
        } else {
            false_chars()
        };
        assert(done_line(t.done) == pre + tail);
        if i < 5 {
            assert(done_line(t.done)[i] == pre[i]);
        } else {
            assert(done_line(t.done)[i] == tail[i - 5]);
        }
    }
}

/// The rendered text splits into exactly the tasks' lines, plus the empty
/// piece after the final newline.
proof fn lemma_split_render(ts: Seq<TaskView>)
    requires
        forall|i: int| 0 <= i < ts.len() ==> (#[trigger] ts[i]).id >= 0,
    ensures
        split_lines(spec_render(ts)) == flat_task_lines(ts) + seq![Seq::<char>::empty()],
    decreases ts.len(),
{
    if ts.len() == 0 {
        assert(spec_render(ts) == Seq::<char>::empty());
        assert(split_lines(Seq::<char>::empty()) =~= seq![Seq::<char>::empty()]);
        assert(flat_task_lines(ts) + seq![Seq::<char>::empty()] =~= seq![Seq::<char>::empty()]);
    } else {
        let t = ts[0];
        let rest = ts.drop_first();
        assert(forall|i: int| 0 <= i < rest.len() ==> (#[trigger] rest[i]).id >= 0);
        lemma_split_render(rest);
        lemma_task_lines_no_newline(t);
        let h = header_chars();
        let l1 = id_line(t.id);
        let l2 = name_line(t.name);
        let l3 = done_line(t.done);
        let r = spec_render(rest);
        let r3 = l3 + newline() + r;
        let r2 = l2 + newline() + r3;
        let r1 = l1 + newline() + r2;
        assert(spec_render(ts) == render_task(t) + r);
        assert(render_task(t) + r =~= h + newline() + r1);
        lemma_split_lines_line(h, r1);
        assert(r1 =~= l1 + newline() + r2);
        lemma_split_lines_line(l1, r2);
        assert(r2 =~= l2 + newline() + r3);
        lemma_split_lines_line(l2, r3);
        assert(r3 =~= l3 + newline() + r);
        lemma_split_lines_line(l3, r);
        assert(split_lines(spec_render(ts)) == seq![h] + (seq![l1] + (seq![l2] + (seq![l3]
            + split_lines(r)))));
        assert(flat_task_lines(ts) == task_lines(t) + flat_task_lines(rest));
        assert(seq![h] + (seq![l1] + (seq![l2] + (seq![l3] + (flat_task_lines(rest) + seq![
            Seq::<char>::empty(),
        ])))) =~= (task_lines(t) + flat_task_lines(rest)) + seq![Seq::<char>::empty()]);
    }
}

proof fn lemma_trim_digits(d: Seq<char>)
    requires
        d.len() > 0,
        all_digits(d),
    ensures
        trim(d) == d,
{
    assert(is_digit(d[0]));
    assert(is_digit(d.last()));
    lemma_trim_id(d);
}

/// Reading the four lines of one block: the previous block is closed and the
/// new block holds exactly the task's three fields.
#[verifier::rlimit(100)]
proof fn lemma_step_task_lines(acc: ParseAcc, t: TaskView, rest: Seq<Seq<char>>)
    requires
        0 <= t.id < usize::MAX,
        close_cur(acc) is Some,
    ensures
        parse_lines_from(acc, task_lines(t) + rest) == parse_lines_from(
            ParseAcc { done_tasks: close_cur(acc).unwrap(), cur: Some(full_partial(t)) },
            rest,
        ),
{
    let h = header_chars();
    let l1 = id_line(t.id);
    let l2 = name_line(t.name);
    let l3 = done_line(t.done);
    lemma_digits_of(t.id);
    let d = digits_of(t.id);

    // the header line
    lemma_trim_id(h);
    let acc1 = ParseAcc { done_tasks: close_cur(acc).unwrap(), cur: Some(empty_partial()) };
    assert(step_line(acc, h) == Some(acc1)) by {
        assert(trim(h) == h);
        assert(h.len() == 9);
    }

    // the id line
    let acc2 = ParseAcc {
        done_tasks: acc1.done_tasks,
        cur: Some(PartialTask { id: Some(t.id), name: None, done: None }),
    };
    assert(step_line(acc1, l1) == Some(acc2)) by {
        let pre = id_key() + seq!['='];
        assert(l1 == pre + d);
        assert(l1[0] == 'i');
        assert(l1.last() == d.last());
        assert(is_digit(d.last()));
        lemma_trim_id(l1);
        assert(trim(l1) == l1);
        assert(l1 != h);
        assert(l1 =~= id_key() + (seq!['='] + d));
        assert((seq!['='] + d)[0] == '=');
        assert(forall|i: int| 0 <= i < id_key().len() ==> id_key()[i] != '=');
        lemma_first_pos_concat(id_key(), seq!['='] + d, '=');
        let k = first_pos(l1, '=');
        assert(k == 2);
        assert(l1.take(2) =~= id_key());
        lemma_trim_id(id_key());
        assert(l1.skip(3) =~= d);
        lemma_trim_digits(d);
        assert(parse_id_value(d) == Some(t.id));
    }

    // the name line
    let acc3 = ParseAcc {
        done_tasks: acc1.done_tasks,
        cur: Some(PartialTask { id: Some(t.id), name: Some(t.name), done: None }),
    };
    assert(step_line(acc2, l2) == Some(acc3)) by {
        let pre = name_key() + seq!['=', '"'];
        let esc = escape_chars(t.name);
        assert(l2 == (pre + esc) + seq!['"']);
        assert(l2[0] == 'n');
        assert(l2.last() == '"');
        lemma_trim_id(l2);
        assert(trim(l2) == l2);
        assert(l2 != h);
        let q = seq!['"'] + esc + seq!['"'];
        assert(l2 =~= name_key() + (seq!['=']  + q));
        assert((seq!['='] + q)[0] == '=');
        assert(forall|i: int| 0 <= i < name_key().len() ==> name_key()[i] != '=');
        lemma_first_pos_concat(name_key(), seq!['='] + q, '=');
        let k = first_pos(l2, '=');
        assert(k == 4);
        assert(l2.take(4) =~= name_key());
        lemma_trim_id(name_key());
        assert(trim(l2.take(4)) != id_key());
        assert(l2.skip(5) =~= q);
        assert(q[0] == '"');
        assert(q.last() == '"');
        lemma_trim_id(q);
        assert(q.len() >= 2);
        assert(q.subrange(1, q.len() - 1) =~= esc);
        lemma_unescape_escape(t.name);
        assert(parse_name_value(q) == Some(t.name));
    }

    // the done line
    let acc4 = ParseAcc { done_tasks: acc1.done_tasks, cur: Some(full_partial(t)) };
    assert(step_line(acc3, l3) == Some(acc4)) by {
        let pre = done_key() + seq!['='];
        let tail = if t.done {
            true_chars()
        } else {
            false_chars()
        };
        assert(l3 == pre + tail);
        assert(l3[0] == 'd');
        assert(tail.len() >= 4);
        assert(l3.last() == tail.last());
        assert(tail.last() == 'e');
        lemma_trim_id(l3);
        assert(trim(l3) == l3);
        assert(l3 != h);
        assert(l3 =~= done_key() + (seq!['='] + tail));
        assert((seq!['='] + tail)[0] == '=');
        assert(forall|i: int| 0 <= i < done_key().len() ==> done_key()[i] != '=');
        lemma_first_pos_concat(done_key(), seq!['='] + tail, '=');
        let k = first_pos(l3, '=');
        assert(k == 4);
        assert(l3.take(4) =~= done_key());
        lemma_trim_id(done_key());
        assert(trim(l3.take(4)) != id_key());
        assert(trim(l3.take(4)) != name_key()) by {
            assert(done_key()[0] == 'd');
            assert(name_key()[0] == 'n');
        }
        assert(l3.skip(5) =~= tail);
        assert(tail[0] != ' ' && tail[0] != '\t');
        lemma_trim_id(tail);
        if t.done {
            assert(parse_bool_value(tail) == Some(true));
        } else {
            assert(tail != true_chars());
            assert(parse_bool_value(tail) == Some(false));
        }
        assert(full_partial(t) =~= PartialTask {
            done: Some(t.done),
            ..PartialTask { id: Some(t.id), name: Some(t.name), done: None }
        });
    }

    // chain the four lines
    let lines = task_lines(t) + rest;
    assert(lines[0] == h);
    assert(lines.drop_first() =~= seq![l1, l2, l3] + rest);
    assert((seq![l1, l2, l3] + rest)[0] == l1);
    assert((seq![l1, l2, l3] + rest).drop_first() =~= seq![l2, l3] + rest);
    assert((seq![l2, l3] + rest)[0] == l2);
    assert((seq![l2, l3] + rest).drop_first() =~= seq![l3] + rest);
    assert((seq![l3] + rest)[0] == l3);
    assert((seq![l3] + rest).drop_first() =~= rest);
    assert(parse_lines_from(acc, lines) == parse_lines_from(acc1, seq![l1, l2, l3] + rest));
    assert(parse_lines_from(acc1, seq![l1, l2, l3] + rest) == parse_lines_from(
        acc2,
        seq![l2, l3] + rest,
    ));
    assert(parse_lines_from(acc2, seq![l2, l3] + rest) == parse_lines_from(acc3, seq![l3] + rest));
    assert(parse_lines_from(acc3, seq![l3] + rest) == parse_lines_from(acc4, rest));
}

/// Reading back all the blocks appends exactly the rendered tasks.
proof fn lemma_parse_render_lines(acc: ParseAcc, ts: Seq<TaskView>)
    requires
        close_cur(acc) is Some,
        ids_in_range(ts),
    ensures
        parse_lines_from(acc, flat_task_lines(ts) + seq![Seq::<char>::empty()]) matches Some(af)
            && close_cur(af) == Some(close_cur(acc).unwrap() + ts),
    decreases ts.len(),
{
    if ts.len() == 0 {
        assert(flat_task_lines(ts) + seq![Seq::<char>::empty()] =~= seq![Seq::<char>::empty()]);
        assert(lead_spaces(Seq::<char>::empty()) == 0);
        assert(trim(Seq::<char>::empty()).len() == 0);
        assert(step_line(acc, Seq::<char>::empty()) == Some(acc));
        assert(seq![Seq::<char>::empty()].drop_first() =~= Seq::<Seq<char>>::empty());
        assert(parse_lines_from(acc, Seq::<Seq<char>>::empty()) == Some(acc));
        assert(parse_lines_from(acc, seq![Seq::<char>::empty()]) == Some(acc));
        assert(close_cur(acc).unwrap() + ts =~= close_cur(acc).unwrap());
    } else {
        let t0 = ts[0];
        let rest_ts = ts.drop_first();
        assert(0 <= t0.id < usize::MAX);
        assert(ids_in_range(rest_ts)) by {
            assert(forall|i: int|
                0 <= i < rest_ts.len() ==> rest_ts[i] == ts[i + 1]);
        }
        let tail_lines = flat_task_lines(rest_ts) + seq![Seq::<char>::empty()];
        assert(flat_task_lines(ts) + seq![Seq::<char>::empty()] =~= task_lines(t0) + tail_lines);
        lemma_step_task_lines(acc, t0, tail_lines);
        let acc2 = ParseAcc { done_tasks: close_cur(acc).unwrap(), cur: Some(full_partial(t0)) };
        assert(finish_partial(full_partial(t0)) == Some(t0)) by {
            assert(TaskView { id: t0.id, name: t0.name, done: t0.done } =~= t0);
        }
        assert(close_cur(acc2) == Some(close_cur(acc).unwrap().push(t0)));
        lemma_parse_render_lines(acc2, rest_ts);
        assert(close_cur(acc).unwrap().push(t0) + rest_ts =~= close_cur(acc).unwrap() + ts);
    }
}

/// Reading back what was rendered yields the same tasks: identifier, name
/// and done flag of every task, in order.
pub proof fn lemma_store_round_trip(ts: Seq<TaskView>)
    requires
        ids_in_range(ts),
    ensures
        spec_parse(spec_render(ts)) == Some(ts),
{
    lemma_split_render(ts);
    lemma_parse_render_lines(init_acc(), ts);
    assert(close_cur(init_acc()) == Some(Seq::<TaskView>::empty()));
    assert(Seq::<TaskView>::empty() + ts =~= ts);
}

// --------------------- identifiers of what was read ------------------------

spec fn acc_ids_ok(acc: ParseAcc) -> bool {
    ids_in_range(acc.done_tasks) && match acc.cur {
        Some(p) => match p.id {
            Some(n) => 0 <= n < usize::MAX,
            None => true,
        },
        None => true,
    }
}

proof fn lemma_step_line_range(acc: ParseAcc, l: Seq<char>)
    requires
        acc_ids_ok(acc),
    ensures
        step_line(acc, l) matches Some(a2) ==> acc_ids_ok(a2),
{
    let t = trim(l);
    if t.len() == 0 {
    } else if t == header_chars() {
        match close_cur(acc) {
            Some(ts) => {
                assert(ids_in_range(ts)) by {
                    match acc.cur {
                        Some(p) => {
                            match finish_partial(p) {
                                Some(tv) => {
                                    assert(ts == acc.done_tasks.push(tv));
                                    assert(forall|i: int|
                                        0 <= i < acc.done_tasks.len() ==> ts[i]
                                            == acc.done_tasks[i]);
                                },
                                None => {},
                            }
                        },
                        None => {},
                    }
                }
            },
            None => {},
        }
    } else {
        match acc.cur {
            None => {},
            Some(p) => {
                let k = first_pos(t, '=');
                if k < t.len() {
                    let v = trim(t.skip(k as int + 1));
                    if trim(t.take(k as int)) == id_key() {
                        match parse_id_value(v) {
                            Some(n) => {
                                lemma_digits_val_nonneg(v);
                            },
                            None => {},
                        }
                    }
                }
            },
        }
    }
}

proof fn lemma_parse_lines_range(acc: ParseAcc, lines: Seq<Seq<char>>)
    requires
        acc_ids_ok(acc),
    ensures
        parse_lines_from(acc, lines) matches Some(af) ==> acc_ids_ok(af),
    decreases lines.len(),
{
    if lines.len() > 0 {
        lemma_step_line_range(acc, lines[0]);
        match step_line(acc, lines[0]) {
            Some(a2) => {
                lemma_parse_lines_range(a2, lines.drop_first());
            },
            None => {},
        }
    }
}

/// Whatever text was read, every identifier that came out leaves room for
/// the allocator.
pub proof fn lemma_spec_parse_range(s: Seq<char>)
    ensures
        spec_parse(s) matches Some(ts) ==> ids_in_range(ts),
{
    lemma_parse_lines_range(init_acc(), split_lines(s));
    match parse_lines_from(init_acc(), split_lines(s)) {
        Some(af) => {
            match close_cur(af) {
                Some(ts) => {
                    assert(ids_in_range(ts)) by {
                        match af.cur {
                            Some(p) => {
                                match finish_partial(p) {
                                    Some(tv) => {
                                        assert(ts == af.done_tasks.push(tv));
                                        assert(forall|i: int|
                                            0 <= i < af.done_tasks.len() ==> ts[i]
                                                == af.done_tasks[i]);
                                    },
                                    None => {},
                                }
                            },
                            None => {},
                        }
                    }
                },
                None => {},
            }
        },
        None => {},
    }
}

} // verus!


