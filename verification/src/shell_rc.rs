//! The managed block of proxy settings in a shell start-up file: how it is
//! written, put in place of an earlier one or appended, and taken out again.
use vstd::prelude::*;
use crate::proxy::EnvVars;
use crate::text::decimal;
use crate::text::{
    chars_of, contains_chars, contains_text, find_from, occurs_at, find_text_from, push_all, push_range,
    push_str, same_text, string_of, string_push, trim_end_newlines, trim_start_newlines,
    trimmed_end_len, trimmed_start_pos,
};

verus! {

/// The line that opens the managed block.
pub const START_MARKER: &'static str = "# Proxy Term - Start";

/// The line that closes the managed block.
pub const END_MARKER: &'static str = "# Proxy Term - End";

pub open spec fn start_marker() -> Seq<char> {
    START_MARKER@
}

pub open spec fn end_marker() -> Seq<char> {
    END_MARKER@
}

pub open spec fn nl() -> Seq<char> {
    seq!['\n']
}

// ---------------------------------------------------------------------------
// Quoting and rendering
// ---------------------------------------------------------------------------

/// Every `'` of `s` written as `'\''`.
pub open spec fn escape_quotes(s: Seq<char>) -> Seq<char>
    decreases s.len(),
{
    if s.len() == 0 {
        Seq::empty()
    } else if s.last() == '\'' {
        escape_quotes(s.drop_last()) + seq!['\'', '\\', '\'', '\'']
    } else {
        escape_quotes(s.drop_last()).push(s.last())
    }
}

/// `s` as one single-quoted shell word.
pub open spec fn single_quoted(s: Seq<char>) -> Seq<char> {
    seq!['\''] + escape_quotes(s) + seq!['\'']
}

/// Quotes `value` for a POSIX shell or fish: in single quotes, with each
/// single quote inside closed, escaped and reopened.
pub fn shell_single_quote(value: &str) -> (q: String)
    ensures
        q@ == single_quoted(value@),
        (forall|i: int| 0 <= i < value@.len() ==> value@[i] != '\'') ==> q@ == seq!['\''] + value@
            + seq!['\''],
{
    proof {
        lemma_escape_without_quotes(value@);
    }
    let v = chars_of(value);
    let mut out = String::new();
    string_push(&mut out, '\'');
    let mut i: usize = 0;
    while i < v.len()
        invariant
            v@ == value@,
            i <= v@.len(),
            out@ == seq!['\''] + escape_quotes(v@.take(i as int)),
        decreases v@.len() - i,
    {
        let c = v[i];
        assert(v@.take(i + 1).drop_last() =~= v@.take(i as int));
        if c == '\'' {
            string_push(&mut out, '\'');
            string_push(&mut out, '\\');
            string_push(&mut out, '\'');
            string_push(&mut out, '\'');
        } else {
            string_push(&mut out, c);
        }
        i = i + 1;
        assert(out@ =~= seq!['\''] + escape_quotes(v@.take(i as int)));
    }
    string_push(&mut out, '\'');
    assert(v@.take(v@.len() as int) =~= v@);
    out
}

/// Text without single quotes is left as it is by escaping.
pub proof fn lemma_escape_without_quotes(v: Seq<char>)
    ensures
        (forall|i: int| 0 <= i < v.len() ==> v[i] != '\'') ==> escape_quotes(v) == v,
    decreases v.len(),
{
    if v.len() > 0 && (forall|i: int| 0 <= i < v.len() ==> v[i] != '\'') {
        let w = v.drop_last();
        assert forall|i: int| 0 <= i < w.len() implies w[i] != '\'' by {
            assert(w[i] == v[i]);
        }
        lemma_escape_without_quotes(w);
        assert(v.last() == v[v.len() - 1]);
        assert(w.push(v.last()) =~= v);
    }
}

/// The line that sets one variable: `set -gx NAME 'value'` for fish,
/// `export NAME='value'` for any other shell.
pub open spec fn config_line(shell: Seq<char>, key: Seq<char>, value: Seq<char>) -> Seq<char> {
    if shell == "fish"@ {
        "set -gx "@ + key + " "@ + single_quoted(value)
    } else {
        "export "@ + key + "="@ + single_quoted(value)
    }
}

/// The lines for `pairs`, each preceded by a newline.
pub open spec fn config_lines(shell: Seq<char>, pairs: Seq<(Seq<char>, Seq<char>)>) -> Seq<char>
    decreases pairs.len(),
{
    if pairs.len() == 0 {
        Seq::empty()
    } else {
        config_lines(shell, pairs.drop_last()) + nl() + config_line(
            shell,
            pairs.last().0,
            pairs.last().1,
        )
    }
}

/// The managed block: the start marker, one line per variable and the end
/// marker, joined by newlines.
pub open spec fn config_block(shell: Seq<char>, pairs: Seq<(Seq<char>, Seq<char>)>) -> Seq<char> {
    start_marker() + config_lines(shell, pairs) + nl() + end_marker()
}

proof fn lemma_lines_flatten(shell: Seq<char>, pairs: Seq<(Seq<char>, Seq<char>)>)
    ensures
        config_lines(shell, pairs) == pairs.map_values(
            |p: (Seq<char>, Seq<char>)| nl() + config_line(shell, p.0, p.1),
        ).flatten_alt(),
    decreases pairs.len(),
{
    let f = |p: (Seq<char>, Seq<char>)| nl() + config_line(shell, p.0, p.1);
    if pairs.len() > 0 {
        lemma_lines_flatten(shell, pairs.drop_last());
        let m = pairs.map_values(f);
        assert(m.drop_last() =~= pairs.drop_last().map_values(f));
        assert(m.last() == f(pairs.last()));
        assert(config_lines(shell, pairs) =~= m.drop_last().flatten_alt() + m.last());
    } else {
        assert(pairs.map_values(f) =~= Seq::<Seq<char>>::empty());
    }
}

/// Law: in the block, each variable has a line of its own, in order, after
/// the start marker and before the end marker: `set -gx NAME 'value'` for
/// fish, and `export NAME='value'` for every other shell.
pub proof fn lemma_block_lines(shell: Seq<char>, pairs: Seq<(Seq<char>, Seq<char>)>)
    ensures
        shell != "fish"@ ==> config_block(shell, pairs) == START_MARKER@ + pairs.flat_map(
            |p: (Seq<char>, Seq<char>)| seq!['\n'] + "export "@ + p.0 + "="@ + single_quoted(p.1),
        ) + seq!['\n'] + END_MARKER@,
        shell == "fish"@ ==> config_block(shell, pairs) == START_MARKER@ + pairs.flat_map(
            |p: (Seq<char>, Seq<char>)| seq!['\n'] + "set -gx "@ + p.0 + " "@ + single_quoted(p.1),
        ) + seq!['\n'] + END_MARKER@,
{
    let f = |p: (Seq<char>, Seq<char>)| nl() + config_line(shell, p.0, p.1);
    lemma_lines_flatten(shell, pairs);
    pairs.map_values(f).lemma_flatten_and_flatten_alt_are_equivalent();
    let fe = |p: (Seq<char>, Seq<char>)| seq!['\n'] + "export "@ + p.0 + "="@ + single_quoted(p.1);
    let ff = |p: (Seq<char>, Seq<char>)| seq!['\n'] + "set -gx "@ + p.0 + " "@ + single_quoted(p.1);
    if shell != "fish"@ {
        assert forall|i: int| 0 <= i < pairs.len() implies #[trigger] pairs.map_values(f)[i]
            == pairs.map_values(fe)[i] by {
            let q = pairs[i];
            assert(nl() + config_line(shell, q.0, q.1) =~= seq!['\n'] + "export "@ + q.0 + "="@
                + single_quoted(q.1));
        }
        assert(pairs.map_values(f) =~= pairs.map_values(fe));
        assert(pairs.flat_map(fe) == pairs.map_values(fe).flatten());
    } else {
        assert forall|i: int| 0 <= i < pairs.len() implies #[trigger] pairs.map_values(f)[i]
            == pairs.map_values(ff)[i] by {
            let q = pairs[i];
            assert(nl() + config_line(shell, q.0, q.1) =~= seq!['\n'] + "set -gx "@ + q.0 + " "@
                + single_quoted(q.1));
        }
        assert(pairs.map_values(f) =~= pairs.map_values(ff));
        assert(pairs.flat_map(ff) == pairs.map_values(ff).flatten());
    }
}

/// Writes the managed block that sets `vars` in the syntax of `shell`.
pub fn render_config_block(vars: &EnvVars, shell: &str) -> (block: String)
    ensures
        block@ == config_block(shell@, vars@),
        shell@ != "fish"@ ==> block@ == START_MARKER@ + vars@.flat_map(
            |p: (Seq<char>, Seq<char>)| seq!['\n'] + "export "@ + p.0 + "="@ + single_quoted(p.1),
        ) + seq!['\n'] + END_MARKER@,
        shell@ == "fish"@ ==> block@ == START_MARKER@ + vars@.flat_map(
            |p: (Seq<char>, Seq<char>)| seq!['\n'] + "set -gx "@ + p.0 + " "@ + single_quoted(p.1),
        ) + seq!['\n'] + END_MARKER@,
{
    proof {
        lemma_block_lines(shell@, vars@);
    }
    let fish = same_text(shell, "fish");
    let mut out = string_of(START_MARKER);
    let mut i: usize = 0;
    while i < vars.len()
        invariant
            i <= vars@.len(),
            fish == (shell@ == "fish"@),
            out@ == start_marker() + config_lines(shell@, vars@.take(i as int)),
        decreases vars@.len() - i,
    {
        let (key, value) = vars.entry(i);
        string_push(&mut out, '\n');
        if fish {
            push_str(&mut out, "set -gx ");
            push_str(&mut out, key.as_str());
            push_str(&mut out, " ");
        } else {
            push_str(&mut out, "export ");
            push_str(&mut out, key.as_str());
            push_str(&mut out, "=");
        }
        let quoted = shell_single_quote(value.as_str());
        push_str(&mut out, quoted.as_str());
        assert(vars@.take(i + 1).drop_last() =~= vars@.take(i as int));
        assert(vars@.take(i + 1).last() == vars@[i as int]);
        i = i + 1;
        assert(out@ =~= start_marker() + config_lines(shell@, vars@.take(i as int)));
    }
    string_push(&mut out, '\n');
    push_str(&mut out, END_MARKER);
    assert(vars@.take(vars@.len() as int) =~= vars@);
    out
}

// ---------------------------------------------------------------------------
// Finding, replacing and removing the block
// ---------------------------------------------------------------------------

/// Where the managed block stands in `content`: from the first start marker
/// to the end of the first end marker that follows it. `None` where there is
/// no start marker, or no end marker after it.
pub open spec fn block_span(content: Seq<char>) -> Option<(int, int)> {
    match find_from(content, start_marker(), 0) {
        None => None,
        Some(start) => match find_from(content, end_marker(), start + start_marker().len()) {
            None => None,
            Some(end) => Some((start, end + end_marker().len())),
        },
    }
}

/// `new_config` added at the end of `content`, after one blank line, once the
/// trailing newlines of `content` are dropped; `new_config` alone where
/// nothing else remains.
pub open spec fn appended_text(content: Seq<char>, new_config: Seq<char>) -> Seq<char> {
    let t = trim_end_newlines(content);
    if t.len() == 0 {
        new_config
    } else {
        t + seq!['\n', '\n'] + new_config
    }
}

/// `content` with its managed block replaced by `new_config`, or with
/// `new_config` appended where it has none. Newlines that border the old
/// block are dropped and one newline put on each side of the new one.
pub open spec fn replaced_text(content: Seq<char>, new_config: Seq<char>) -> Seq<char> {
    match block_span(content) {
        Some((start, end)) => trim_end_newlines(content.take(start)) + nl() + new_config + nl()
            + trim_start_newlines(content.skip(end)),
        None => appended_text(content, new_config),
    }
}

/// `content` with its managed block taken out. The text before and after it
/// lose the newlines that bordered the block and are joined by one newline;
/// where either is empty, the other stands alone. Content without a block
/// stays as it is.
pub open spec fn removed_text(content: Seq<char>) -> Seq<char> {
    match block_span(content) {
        Some((start, end)) => {
            let before = trim_end_newlines(content.take(start));
            let after = trim_start_newlines(content.skip(end));
            if before.len() == 0 {
                after
            } else if after.len() == 0 {
                before
            } else {
                before + nl() + after
            }
        },
        None => content,
    }
}

/// Where the managed block stands in `v`, as `find` reports it.
fn locate_block(v: &Vec<char>) -> (r: Option<(usize, usize)>)
    ensures
        r matches Some((s, e)) ==> block_span(v@) == Some((s as int, e as int)) && s <= e
            <= v@.len(),
        r is None ==> block_span(v@) is None,
{
    let start_chars = chars_of(START_MARKER);
    let end_chars = chars_of(END_MARKER);
    let total = v.len();
    match find_text_from(v, &start_chars, 0) {
        None => None,
        Some(start) => {
            proof {
                crate::text::lemma_find_from_first(v@, start_chars@, 0);
                assert(crate::text::occurs_at(v@, start_chars@, start as int));
                assert(start + start_chars@.len() <= v@.len());
            }
            let from = start + start_chars.len();
            match find_text_from(v, &end_chars, from) {
                None => None,
                Some(end) => {
                    proof {
                        crate::text::lemma_find_from_first(v@, end_chars@, from as int);
                        assert(crate::text::occurs_at(v@, end_chars@, end as int));
                        assert(end + end_chars@.len() <= v@.len());
                    }
                    Some((start, end + end_chars.len()))
                },
            }
        },
    }
}

/// Puts `new_config` in place of the managed block of `content`, or appends
/// it where `content` has none.
pub fn replace_or_append_config(content: &str, new_config: &str) -> (out: String)
    ensures
        out@ == replaced_text(content@, new_config@),
{
    let v = chars_of(content);
    let n = chars_of(new_config);
    let mut out = String::new();
    match locate_block(&v) {
        Some((start, end)) => {
            let before_len = trimmed_end_len(&v, start);
            let after_pos = trimmed_start_pos(&v, end);
            push_range(&mut out, &v, 0, before_len);
            string_push(&mut out, '\n');
            push_all(&mut out, &n);
            string_push(&mut out, '\n');
            push_range(&mut out, &v, after_pos, v.len());
            assert(v@.take(start as int) =~= v@.subrange(0, start as int));
            assert(v@.skip(end as int) =~= v@.subrange(end as int, v@.len() as int));
            assert(out@ =~= replaced_text(content@, new_config@));
        },
        None => {
            let t_len = trimmed_end_len(&v, v.len());
            assert(v@.subrange(0, v@.len() as int) =~= v@);
            if t_len == 0 {
                push_all(&mut out, &n);
            } else {
                push_range(&mut out, &v, 0, t_len);
                string_push(&mut out, '\n');
                string_push(&mut out, '\n');
                push_all(&mut out, &n);
            }
            assert(out@ =~= replaced_text(content@, new_config@));
        },
    }
    out
}

/// Takes the managed block out of `content`.
pub fn remove_config(content: &str) -> (out: String)
    ensures
        out@ == removed_text(content@),
{
    let v = chars_of(content);
    let mut out = String::new();
    match locate_block(&v) {
        Some((start, end)) => {
            let before_len = trimmed_end_len(&v, start);
            let after_pos = trimmed_start_pos(&v, end);
            assert(v@.take(start as int) =~= v@.subrange(0, start as int));
            assert(v@.skip(end as int) =~= v@.subrange(end as int, v@.len() as int));
            if before_len == 0 {
                push_range(&mut out, &v, after_pos, v.len());
            } else if after_pos == v.len() {
                push_range(&mut out, &v, 0, before_len);
            } else {
                push_range(&mut out, &v, 0, before_len);
                string_push(&mut out, '\n');
                push_range(&mut out, &v, after_pos, v.len());
            }
            assert(out@ =~= removed_text(content@));
        },
        None => {
            push_all(&mut out, &v);
        },
    }
    out
}

/// The start-up file holds both markers: the proxy is taken to be set.
pub open spec fn has_block_markers(content: Seq<char>) -> bool {
    contains_text(content, start_marker()) && contains_text(content, end_marker())
}

pub fn has_config_block(content: &str) -> (b: bool)
    ensures
        b == has_block_markers(content@),
{
    let v = chars_of(content);
    let s = chars_of(START_MARKER);
    let e = chars_of(END_MARKER);
    contains_chars(&v, &s) && contains_chars(&v, &e)
}

// ---------------------------------------------------------------------------
// Which shell, which file
// ---------------------------------------------------------------------------

/// The last component of `path`, as `std::path::Path::file_name` finds it;
/// `None` where the path ends in `..` or is a root alone.
pub uninterp spec fn path_file_name(path: Seq<char>) -> Option<Seq<char>>;

/// `std::path::Path::file_name` on `path`, the name turned back into a
/// string. The contract claims only that the result is a function of `path`,
/// named `path_file_name`; how the path is split into components is left to
/// the standard library.
#[verifier::external_body]
fn file_name_of(path: &str) -> (r: Option<String>)
    ensures
        r matches Some(n) ==> path_file_name(path@) == Some(n@),
        r is None ==> path_file_name(path@) is None,
{
    match std::path::Path::new(path).file_name() {
        Some(n) => Some(n.to_string_lossy().into_owned()),
        None => None,
    }
}

/// The name of the user's shell from the value of `SHELL`: the last
/// component of that path, or `bash` where the variable is unset or has no
/// such component.
pub open spec fn shell_name_text(shell_var: Option<Seq<char>>) -> Seq<char> {
    match shell_var {
        Some(p) => match path_file_name(p) {
            Some(n) => n,
            None => "bash"@,
        },
        None => "bash"@,
    }
}

pub fn shell_name(shell_var: Option<&str>) -> (name: String)
    ensures
        name@ == shell_name_text(
            match shell_var {
                Some(p) => Some(p@),
                None => None,
            },
        ),
{
    match shell_var {
        Some(p) => match file_name_of(p) {
            Some(n) => n,
            None => string_of("bash"),
        },
        None => string_of("bash"),
    }
}

/// The start-up file of `shell` under the home directory `home`.
pub open spec fn rc_file_text(shell: Seq<char>, home: Seq<char>) -> Seq<char> {
    if shell == "bash"@ {
        home + "/.bashrc"@
    } else if shell == "zsh"@ {
        home + "/.zshrc"@
    } else if shell == "fish"@ {
        home + "/.config/fish/config.fish"@
    } else {
        home + "/.profile"@
    }
}

/// The start-up file of `shell`, given the value of `HOME` where it is set.
pub fn shell_rc_file(shell: &str, home: Option<&str>) -> (r: Result<String, String>)
    ensures
        home is None ==> (r matches Err(e) && e@ == "无法获取 HOME 目录"@),
        home matches Some(h) ==> (r matches Ok(p) && p@ == rc_file_text(shell@, h@)),
{
    match home {
        None => Err(string_of("无法获取 HOME 目录")),
        Some(h) => {
            let mut p = string_of(h);
            if same_text(shell, "bash") {
                push_str(&mut p, "/.bashrc");
            } else if same_text(shell, "zsh") {
                push_str(&mut p, "/.zshrc");
            } else if same_text(shell, "fish") {
                push_str(&mut p, "/.config/fish/config.fish");
            } else {
                push_str(&mut p, "/.profile");
            }
            Ok(p)
        },
    }
}


// ---------------------------------------------------------------------------
// Laws of the managed block
// ---------------------------------------------------------------------------

/// `b` is a managed block by itself: it opens with the start marker, and the
/// first end marker after that closes it at its very end.
pub open spec fn is_managed_block(b: Seq<char>) -> bool {
    block_span(b) == Some((0int, b.len() as int))
}

pub open spec fn has_no_newline(s: Seq<char>) -> bool {
    forall|i: int| 0 <= i < s.len() ==> #[trigger] s[i] != '\n'
}

proof fn lemma_markers()
    ensures
        start_marker().len() == 20,
        end_marker().len() == 18,
        has_no_newline(start_marker()),
        has_no_newline(end_marker()),
{
    reveal_strlit("# Proxy Term - Start");
    reveal_strlit("# Proxy Term - End");
}

/// An occurrence of a pattern without newlines does not cover a newline.
proof fn lemma_occurrence_avoids_newline(s: Seq<char>, pat: Seq<char>, i: int, k: int)
    requires
        occurs_at(s, pat, i),
        has_no_newline(pat),
        0 <= k < s.len(),
        s[k] == '\n',
    ensures
        k < i || k >= i + pat.len(),
{
    if i <= k < i + pat.len() {
        assert(s.subrange(i, i + pat.len())[k - i] == s[k]);
    }
}

/// An occurrence inside the first part of a concatenation is one in that
/// part, and conversely.
proof fn lemma_occurrence_in_front(x: Seq<char>, y: Seq<char>, pat: Seq<char>, i: int)
    requires
        0 <= i,
        i + pat.len() <= x.len(),
    ensures
        occurs_at(x + y, pat, i) == occurs_at(x, pat, i),
{
    assert((x + y).subrange(i, i + pat.len()) =~= x.subrange(i, i + pat.len()));
}

/// An occurrence inside the second part of a concatenation is one in that
/// part, and conversely.
proof fn lemma_occurrence_in_back(x: Seq<char>, y: Seq<char>, pat: Seq<char>, i: int)
    requires
        x.len() <= i,
    ensures
        occurs_at(x + y, pat, i) == occurs_at(y, pat, i - x.len()),
{
    if i + pat.len() <= x.len() + y.len() {
        assert((x + y).subrange(i, i + pat.len()) =~= y.subrange(
            i - x.len(),
            i - x.len() + pat.len(),
        ));
    }
}

/// `find_from` reports no occurrence exactly when there is none.
proof fn lemma_no_occurrence(s: Seq<char>, pat: Seq<char>)
    ensures
        !contains_text(s, pat) <==> find_from(s, pat, 0) is None,
{
    crate::text::lemma_find_from_first(s, pat, 0);
    if find_from(s, pat, 0) is None {
        assert(forall|j: int| !occurs_at(s, pat, j));
    }
}

/// Where `p` holds no start marker and ends with a newline (or is empty), a
/// managed block `b` that follows it is the first block of `p + b + q`.
proof fn lemma_span_around(p: Seq<char>, b: Seq<char>, q: Seq<char>)
    requires
        p.len() == 0 || p.last() == '\n',
        !contains_text(p, start_marker()),
        is_managed_block(b),
    ensures
        block_span(p + b + q) == Some((p.len() as int, (p.len() + b.len()) as int)),
{
    lemma_markers();
    let s = p + b + q;
    let st = start_marker();
    let en = end_marker();
    let m = p.len() as int;
    assert(s == p + (b + q));
    crate::text::lemma_find_from_first(b, st, 0);
    crate::text::lemma_find_from_first(b, en, st.len() as int);
    // The block's start marker is the first in `s`.
    lemma_occurrence_in_back(p, b + q, st, m);
    lemma_occurrence_in_front(b, q, st, 0);
    assert forall|j: int| 0 <= j < m implies !occurs_at(s, st, j) by {
        if occurs_at(s, st, j) {
            if j + st.len() <= m {
                lemma_occurrence_in_front(p, b + q, st, j);
            } else {
                assert(s[m - 1] == p.last());
                lemma_occurrence_avoids_newline(s, st, j, m - 1);
            }
        }
    }
    crate::text::lemma_find_from_at(s, st, 0, m);
    // The block's end marker is the first after the start marker.
    let e0 = b.len() - en.len();
    lemma_occurrence_in_back(p, b + q, en, m + e0);
    lemma_occurrence_in_front(b, q, en, e0);
    assert forall|j: int| m + st.len() <= j < m + e0 implies !occurs_at(s, en, j) by {
        lemma_occurrence_in_back(p, b + q, en, j);
        lemma_occurrence_in_front(b, q, en, j - m);
    }
    crate::text::lemma_find_from_at(s, en, m + st.len(), m + e0);
}

proof fn lemma_trim_end_newline(x: Seq<char>)
    ensures
        trim_end_newlines(x + nl()) == trim_end_newlines(x),
{
    assert((x + nl()).drop_last() =~= x);
}

proof fn lemma_trim_start_newline(y: Seq<char>)
    ensures
        trim_start_newlines(nl() + y) == trim_start_newlines(y),
{
    assert((nl() + y).drop_first() =~= y);
}

proof fn lemma_trim_end_idempotent(x: Seq<char>)
    ensures
        trim_end_newlines(trim_end_newlines(x)) == trim_end_newlines(x),
        trim_end_newlines(x).len() == 0 || trim_end_newlines(x).last() != '\n',
        trim_end_newlines(x).len() <= x.len(),
        x.take(trim_end_newlines(x).len() as int) == trim_end_newlines(x),
    decreases x.len(),
{
    if x.len() > 0 && x.last() == '\n' {
        lemma_trim_end_idempotent(x.drop_last());
        assert(x.take(trim_end_newlines(x).len() as int) =~= x.drop_last().take(
            trim_end_newlines(x).len() as int,
        ));
    } else {
        assert(x.take(x.len() as int) =~= x);
    }
}

proof fn lemma_trim_start_idempotent(y: Seq<char>)
    ensures
        trim_start_newlines(trim_start_newlines(y)) == trim_start_newlines(y),
    decreases y.len(),
{
    if y.len() > 0 && y[0] == '\n' {
        lemma_trim_start_idempotent(y.drop_first());
    }
}

/// A prefix of text without a start marker has none either.
proof fn lemma_prefix_no_start(x: Seq<char>, k: int)
    requires
        0 <= k <= x.len(),
        forall|j: int| 0 <= j < k ==> !occurs_at(x, start_marker(), j),
    ensures
        !contains_text(x.take(k), start_marker()),
{
    let st = start_marker();
    lemma_markers();
    assert forall|j: int| !occurs_at(x.take(k), st, j) by {
        if occurs_at(x.take(k), st, j) {
            assert(x == x.take(k) + x.skip(k));
            lemma_occurrence_in_front(x.take(k), x.skip(k), st, j);
        }
    }
}

/// Text without a start marker, followed by a newline, has none either.
proof fn lemma_newline_no_start(x: Seq<char>)
    requires
        !contains_text(x, start_marker()),
    ensures
        !contains_text(x + nl(), start_marker()),
{
    lemma_markers();
    let st = start_marker();
    assert forall|j: int| !occurs_at(x + nl(), st, j) by {
        if occurs_at(x + nl(), st, j) {
            if j + st.len() <= x.len() {
                lemma_occurrence_in_front(x, nl(), st, j);
            } else {
                assert((x + nl())[x.len() as int] == '\n');
                lemma_occurrence_avoids_newline(x + nl(), st, j, x.len() as int);
            }
        }
    }
}

/// Law: setting then clearing the proxy in a start-up file that held no
/// block gives back the file without its trailing newlines; in between the
/// file holds a block, and afterwards it holds no start marker.
pub proof fn lemma_set_then_unset_fresh(c: Seq<char>, b: Seq<char>)
    requires
        !contains_text(c, start_marker()),
        is_managed_block(b),
    ensures
        block_span(replaced_text(c, b)) is Some,
        removed_text(replaced_text(c, b)) == trim_end_newlines(c),
        !contains_text(removed_text(replaced_text(c, b)), start_marker()),
{
    lemma_markers();
    lemma_no_occurrence(c, start_marker());
    let t = trim_end_newlines(c);
    lemma_trim_end_idempotent(c);
    assert forall|j: int| 0 <= j < t.len() implies !occurs_at(c, start_marker(), j) by {}
    lemma_prefix_no_start(c, t.len() as int);
    assert(block_span(c) is None);
    let r = replaced_text(c, b);
    if t.len() == 0 {
        assert(r == b);
        assert(b.take(0) =~= Seq::<char>::empty());
        assert(b.skip(b.len() as int) =~= Seq::<char>::empty());
        assert forall|j: int| !occurs_at(Seq::<char>::empty(), start_marker(), j) by {}
    } else {
        let p = t + nl() + nl();
        assert(p =~= t + seq!['\n', '\n']);
        lemma_newline_no_start(t);
        lemma_newline_no_start(t + nl());
        assert(r =~= p + b + Seq::<char>::empty());
        lemma_span_around(p, b, Seq::<char>::empty());
        assert(r.take(p.len() as int) =~= p);
        assert(r.skip((p.len() + b.len()) as int) =~= Seq::<char>::empty());
        lemma_trim_end_newline(t + nl());
        lemma_trim_end_newline(t);
    }
}

/// Law: where the start-up file already held a block, setting the proxy and
/// clearing it gives what clearing it at once gives, and setting it twice
/// gives what setting it once gives.
pub proof fn lemma_set_existing(c: Seq<char>, b: Seq<char>)
    requires
        block_span(c) is Some,
        is_managed_block(b),
    ensures
        block_span(replaced_text(c, b)) is Some,
        removed_text(replaced_text(c, b)) == removed_text(c),
        replaced_text(replaced_text(c, b), b) == replaced_text(c, b),
{
    lemma_markers();
    let (st, en) = block_span(c).unwrap();
    crate::text::lemma_find_from_first(c, start_marker(), 0);
    let before = trim_end_newlines(c.take(st));
    let after = trim_start_newlines(c.skip(en));
    lemma_trim_end_idempotent(c.take(st));
    lemma_trim_start_idempotent(c.skip(en));
    assert forall|j: int| 0 <= j < st implies !occurs_at(c.take(st), start_marker(), j) by {
        assert(c == c.take(st) + c.skip(st));
        if j + start_marker().len() <= st {
            lemma_occurrence_in_front(c.take(st), c.skip(st), start_marker(), j);
        }
    }
    lemma_prefix_no_start(c.take(st), before.len() as int);
    lemma_newline_no_start(before);
    let p = before + nl();
    let q = nl() + after;
    let r = replaced_text(c, b);
    assert(r =~= p + b + q);
    lemma_span_around(p, b, q);
    assert(r.take(p.len() as int) =~= p);
    assert(r.skip((p.len() + b.len()) as int) =~= q);
    lemma_trim_end_newline(before);
    lemma_trim_start_newline(after);
    assert(replaced_text(r, b) =~= p + b + q);
}

/// Law: the file after setting the proxy holds the new block.
pub proof fn lemma_replaced_holds_new(c: Seq<char>, n: Seq<char>)
    ensures
        contains_text(replaced_text(c, n), n),
{
    let r = replaced_text(c, n);
    match block_span(c) {
        Some((st, en)) => {
            let x = trim_end_newlines(c.take(st)) + nl();
            assert(r =~= x + (n + (nl() + trim_start_newlines(c.skip(en)))));
            lemma_occurrence_in_back(x, n + (nl() + trim_start_newlines(c.skip(en))), n, x.len() as int);
            lemma_occurrence_in_front(n, nl() + trim_start_newlines(c.skip(en)), n, 0);
            assert(n.subrange(0, n.len() as int) =~= n);
            assert(occurs_at(r, n, x.len() as int));
        },
        None => {
            let t = trim_end_newlines(c);
            if t.len() == 0 {
                assert(r.subrange(0, n.len() as int) =~= n);
                assert(occurs_at(r, n, 0));
            } else {
                let x = t + seq!['\n', '\n'];
                assert(r =~= x + n);
                assert(r.subrange(x.len() as int, (x.len() + n.len()) as int) =~= n);
                assert(occurs_at(r, n, x.len() as int));
            }
        },
    }
}

/// Law: a file that holds a block reads as one where the proxy is set.
pub proof fn lemma_block_means_set(c: Seq<char>)
    requires
        block_span(c) is Some,
    ensures
        has_block_markers(c),
{
    let (st, en) = block_span(c).unwrap();
    crate::text::lemma_find_from_first(c, start_marker(), 0);
    crate::text::lemma_find_from_first(c, end_marker(), st + start_marker().len());
}


pub open spec fn has_no_hash(s: Seq<char>) -> bool {
    forall|i: int| 0 <= i < s.len() ==> #[trigger] s[i] != '#'
}

proof fn lemma_no_hash_concat(x: Seq<char>, y: Seq<char>)
    requires
        has_no_hash(x),
        has_no_hash(y),
    ensures
        has_no_hash(x + y),
{
    assert forall|i: int| 0 <= i < (x + y).len() implies #[trigger] (x + y)[i] != '#' by {
        if i >= x.len() {
            assert((x + y)[i] == y[i - x.len()]);
        }
    }
}

/// Text shaped like the markers: it starts with `#` and holds no quote,
/// backslash, colon or newline.
pub open spec fn marker_like(p: Seq<char>) -> bool {
    &&& p.len() > 0
    &&& p[0] == '#'
    &&& lacks_char(p, '\'')
    &&& lacks_char(p, '\\')
    &&& lacks_char(p, ':')
    &&& lacks_char(p, '\n')
}

proof fn lemma_markers_like()
    ensures
        marker_like(start_marker()),
        marker_like(end_marker()),
{
    reveal_strlit("# Proxy Term - Start");
    reveal_strlit("# Proxy Term - End");
}

/// `pat` holds no character `c`.
pub open spec fn lacks_char(pat: Seq<char>, c: char) -> bool {
    forall|m: int| 0 <= m < pat.len() ==> #[trigger] pat[m] != c
}

/// An occurrence of a pattern does not cover a character the pattern lacks.
proof fn lemma_occurrence_avoids(s: Seq<char>, pat: Seq<char>, i: int, k: int)
    requires
        occurs_at(s, pat, i),
        0 <= k < s.len(),
        lacks_char(pat, s[k]),
    ensures
        k < i || k >= i + pat.len(),
{
    if i <= k < i + pat.len() {
        assert(s.subrange(i, i + pat.len())[k - i] == s[k]);
    }
}

proof fn lemma_occurrence_first_char(s: Seq<char>, pat: Seq<char>, i: int)
    requires
        occurs_at(s, pat, i),
        pat.len() > 0,
    ensures
        s[i] == pat[0],
{
    assert(s.subrange(i, i + pat.len())[0] == s[i]);
}

/// An occurrence of `p` inside an occurrence of `b` is an occurrence of `p`.
proof fn lemma_occurrence_trans(r: Seq<char>, b: Seq<char>, p: Seq<char>, i: int, k: int)
    requires
        occurs_at(r, b, i),
        occurs_at(b, p, k),
    ensures
        occurs_at(r, p, i + k),
{
    assert forall|t: int| 0 <= t < p.len() implies #[trigger] r.subrange(
        i + k,
        i + k + p.len(),
    )[t] == p[t] by {
        assert(r.subrange(i, i + b.len())[k + t] == r[i + k + t]);
        assert(b.subrange(k, k + p.len())[t] == b[k + t]);
    }
    assert(r.subrange(i + k, i + k + p.len()) =~= p);
}

proof fn lemma_end_marker_chars()
    ensures
        end_marker().len() == 18,
        end_marker()[0] == '#',
        lacks_char(end_marker(), '\''),
        lacks_char(end_marker(), '\\'),
        lacks_char(end_marker(), ':'),
        lacks_char(end_marker(), '\n'),
{
    reveal_strlit("# Proxy Term - End");
}

/// Cutting escaped text right after a character that is not part of an
/// escape gives the escape of a prefix.
proof fn lemma_escape_cut(v: Seq<char>, m: int)
    requires
        0 <= m <= escape_quotes(v).len(),
        m == 0 || (escape_quotes(v)[m - 1] != '\'' && escape_quotes(v)[m - 1] != '\\'),
    ensures
        exists|k: int|
            0 <= k <= v.len() && #[trigger] escape_quotes(v.take(k)) == escape_quotes(v).take(m),
    decreases v.len(),
{
    if m == 0 {
        assert(v.take(0) =~= Seq::<char>::empty());
        assert(escape_quotes(v).take(0) =~= Seq::<char>::empty());
        assert(escape_quotes(v.take(0)) == escape_quotes(v).take(0));
    } else if v.len() > 0 {
        let w = v.drop_last();
        let e = escape_quotes(w);
        let ev = escape_quotes(v);
        if m <= e.len() {
            assert(ev.take(m) =~= e.take(m));
            assert(ev[m - 1] == e[m - 1]);
            lemma_escape_cut(w, m);
            let k = choose|k: int| 0 <= k <= w.len() && #[trigger] escape_quotes(w.take(k)) == e.take(m);
            assert(w.take(k) =~= v.take(k));
            assert(escape_quotes(v.take(k)) == ev.take(m));
        } else if v.last() == '\'' {
            assert(ev == e + seq!['\'', '\\', '\'', '\'']);
            assert(ev[m - 1] == seq!['\'', '\\', '\'', '\''][m - 1 - e.len()]);
        } else {
            assert(v.take(v.len() as int) =~= v);
            assert(ev.take(m) =~= ev);
            assert(escape_quotes(v.take(v.len() as int)) == ev.take(m));
        }
    }
}

/// A tail of escaped text without quotes or backslashes is a tail of the
/// text itself.
proof fn lemma_escape_suffix(v: Seq<char>, q: Seq<char>)
    requires
        lacks_char(q, '\''),
        lacks_char(q, '\\'),
        q.len() <= escape_quotes(v).len(),
        escape_quotes(v).skip(escape_quotes(v).len() - q.len()) == q,
    ensures
        q.len() <= v.len(),
        v.skip(v.len() - q.len()) == q,
    decreases v.len(),
{
    if q.len() == 0 {
        assert(v.skip(v.len() as int) =~= q);
    } else if v.len() > 0 {
        let w = v.drop_last();
        let e = escape_quotes(w);
        let ev = escape_quotes(v);
        assert(q[q.len() - 1] == ev.skip(ev.len() - q.len())[q.len() - 1]);
        if v.last() == '\'' {
            assert(ev == e + seq!['\'', '\\', '\'', '\'']);
            assert(ev[ev.len() - 1] == '\'');
        } else {
            assert(ev == e.push(v.last()));
            let q2 = q.drop_last();
            assert forall|t: int| 0 <= t < q2.len() implies #[trigger] e.skip(e.len() - q2.len())[t]
                == q2[t] by {
                assert(q[t] == ev.skip(ev.len() - q.len())[t]);
            }
            assert(e.skip(e.len() - q2.len()) =~= q2);
            lemma_escape_suffix(w, q2);
            assert forall|t: int| 0 <= t < q.len() implies #[trigger] v.skip(v.len() - q.len())[t]
                == q[t] by {
                if t < q.len() - 1 {
                    assert(w.skip(w.len() - q2.len())[t] == q2[t]);
                }
            }
            assert(v.skip(v.len() - q.len()) =~= q);
        }
    } else {
        assert(escape_quotes(v).len() == 0);
    }
}

/// Escaping quotes never makes a marker appear.
proof fn lemma_escape_keeps_out(v: Seq<char>, p: Seq<char>)
    requires
        marker_like(p),
        !contains_text(v, p),
    ensures
        !contains_text(escape_quotes(v), p),
{
        let en = p;
    let ev = escape_quotes(v);
    assert forall|i: int| !occurs_at(ev, en, i) by {
        if occurs_at(ev, en, i) {
            let m = i + en.len();
            assert(ev.subrange(i, m)[en.len() - 1] == ev[m - 1]);
            assert(en[en.len() - 1] != '\'' && en[en.len() - 1] != '\\');
            lemma_escape_cut(v, m);
            let k = choose|k: int| 0 <= k <= v.len() && #[trigger] escape_quotes(v.take(k)) == ev.take(m);
            let vk = v.take(k);
            let evk = escape_quotes(vk);
            assert(evk.skip(evk.len() - en.len()) =~= ev.subrange(i, m));
            lemma_escape_suffix(vk, en);
            assert(v.subrange(k - en.len(), k) =~= vk.skip(vk.len() - en.len()));
            assert(occurs_at(v, en, k - en.len()));
        }
    }
}

/// A line for a name without `#` and a value without a marker holds no
/// marker.
proof fn lemma_line_keeps_out(shell: Seq<char>, key: Seq<char>, value: Seq<char>, p: Seq<char>)
    requires
        marker_like(p),
        has_no_hash(key),
        !contains_text(value, p),
    ensures
        !contains_text(config_line(shell, key, value), p),
{
    reveal_strlit("set -gx ");
    reveal_strlit(" ");
    reveal_strlit("export ");
    reveal_strlit("=");
        lemma_escape_keeps_out(value, p);
    let en = p;
    let esc = escape_quotes(value);
    let pre = if shell == "fish"@ {
        "set -gx "@ + key + " "@ + seq!['\'']
    } else {
        "export "@ + key + "="@ + seq!['\'']
    };
    if shell == "fish"@ {
        lemma_no_hash_concat("set -gx "@, key);
        lemma_no_hash_concat("set -gx "@ + key, " "@);
        lemma_no_hash_concat("set -gx "@ + key + " "@, seq!['\'']);
    } else {
        lemma_no_hash_concat("export "@, key);
        lemma_no_hash_concat("export "@ + key, "="@);
        lemma_no_hash_concat("export "@ + key + "="@, seq!['\'']);
    }
    let line = config_line(shell, key, value);
    assert(line =~= pre + esc + seq!['\'']);
    assert forall|j: int| !occurs_at(line, en, j) by {
        if occurs_at(line, en, j) {
            lemma_occurrence_first_char(line, en, j);
            if j < pre.len() {
                assert(line[j] == pre[j]);
            } else if j + en.len() > pre.len() + esc.len() {
                let k: int = (pre.len() + esc.len()) as int;
                assert(line[k] == '\'');
                lemma_occurrence_avoids(line, en, j, k);
            } else {
                lemma_occurrence_in_front(pre + esc, seq!['\''], en, j);
                lemma_occurrence_in_back(pre, esc, en, j);
            }
        }
    }
}

proof fn lemma_lines_keep_out(shell: Seq<char>, pairs: Seq<(Seq<char>, Seq<char>)>, p: Seq<char>)
    requires
        marker_like(p),
        forall|i: int|
            0 <= i < pairs.len() ==> has_no_hash(#[trigger] pairs[i].0) && !contains_text(
                pairs[i].1,
                p,
            ),
    ensures
        !contains_text(config_lines(shell, pairs), p),
    decreases pairs.len(),
{
        let en = p;
    let l = config_lines(shell, pairs);
    if pairs.len() > 0 {
        let init = pairs.drop_last();
        assert forall|i: int| 0 <= i < init.len() implies has_no_hash(#[trigger] init[i].0)
            && !contains_text(init[i].1, p) by {
            assert(init[i] == pairs[i]);
        }
        lemma_lines_keep_out(shell, init, p);
        assert(pairs.last() == pairs[pairs.len() - 1]);
        lemma_line_keeps_out(shell, pairs.last().0, pairs.last().1, p);
        let l0 = config_lines(shell, init);
        let line = config_line(shell, pairs.last().0, pairs.last().1);
        assert(l == l0 + (nl() + line));
        assert(l == (l0 + nl()) + line);
        assert forall|j: int| !occurs_at(l, en, j) by {
            if occurs_at(l, en, j) {
                if j + en.len() <= l0.len() {
                    lemma_occurrence_in_front(l0, nl() + line, en, j);
                } else if j <= l0.len() {
                    assert(l[l0.len() as int] == '\n');
                    lemma_occurrence_avoids(l, en, j, l0.len() as int);
                } else {
                    lemma_occurrence_in_back(l0 + nl(), line, en, j);
                }
            }
        }
    } else {
        assert forall|j: int| !occurs_at(l, en, j) by {}
    }
}

/// Law: the block written for variables whose names hold no `#` and whose
/// values hold no end marker is a managed block by itself, so the laws above
/// apply to it.
pub proof fn lemma_rendered_block_is_managed(shell: Seq<char>, pairs: Seq<(Seq<char>, Seq<char>)>)
    requires
        forall|i: int|
            0 <= i < pairs.len() ==> has_no_hash(#[trigger] pairs[i].0) && !contains_text(
                pairs[i].1,
                end_marker(),
            ),
    ensures
        is_managed_block(config_block(shell, pairs)),
{
    lemma_markers_like();
    lemma_lines_keep_out(shell, pairs, end_marker());
    lemma_markers();
    lemma_end_marker_chars();
    let st = start_marker();
    let en = end_marker();
    let l = config_lines(shell, pairs);
    let b = config_block(shell, pairs);
    assert(b == st + (l + nl() + en));
    lemma_occurrence_in_front(st, l + nl() + en, st, 0);
    assert(st.subrange(0, st.len() as int) =~= st);
    crate::text::lemma_find_from_at(b, st, 0, 0);
    let e0 = b.len() - en.len();
    assert(b == (st + l + nl()) + en);
    lemma_occurrence_in_back(st + l + nl(), en, en, e0);
    assert(en.subrange(0, en.len() as int) =~= en);
    assert(b == st + (l + (nl() + en)));
    assert forall|j: int| st.len() <= j < e0 implies !occurs_at(b, en, j) by {
        if occurs_at(b, en, j) {
            if j + en.len() <= st.len() + l.len() {
                lemma_occurrence_in_back(st, l + (nl() + en), en, j);
                lemma_occurrence_in_front(l, nl() + en, en, j - st.len());
            } else {
                let k: int = (st.len() + l.len()) as int;
                assert(b[k] == '\n');
                lemma_occurrence_avoids(b, en, j, k);
            }
        }
    }
    crate::text::lemma_find_from_at(b, en, st.len() as int, e0);
}

/// Law: a proxy whose host and bypass list hold no marker text (the start
/// or the end marker) stands for variables whose names hold no `#` and whose
/// values hold no such marker.
pub proof fn lemma_env_pairs_keep_out(cfg: crate::proxy::ProxyConfig, p: Seq<char>)
    requires
        marker_like(p),
        !contains_text(cfg.host@, p),
        !contains_text(cfg.no_proxy@, p),
    ensures
        forall|i: int|
            0 <= i < cfg.env_pairs().len() ==> has_no_hash(#[trigger] cfg.env_pairs()[i].0)
                && !contains_text(cfg.env_pairs()[i].1, p),
{
    reveal_strlit("http");
    reveal_strlit("socks5");
    reveal_strlit("://");
    reveal_strlit(":");
    reveal_strlit("http_proxy");
    reveal_strlit("https_proxy");
    reveal_strlit("HTTP_PROXY");
    reveal_strlit("HTTPS_PROXY");
    reveal_strlit("all_proxy");
    reveal_strlit("ALL_PROXY");
    reveal_strlit("no_proxy");
    reveal_strlit("NO_PROXY");
        let en = p;
    crate::text::lemma_decimal_digits(cfg.port as nat);
    let d = decimal(cfg.port as nat);
    assert(has_no_hash(d)) by {
        assert forall|i: int| 0 <= i < d.len() implies #[trigger] d[i] != '#' by {
            assert(crate::text::is_ascii_digit(d[i]));
        }
    }
    let a = cfg.proxy_type.scheme_text() + "://"@;
    lemma_no_hash_concat(cfg.proxy_type.scheme_text(), "://"@);
    let bq = ":"@ + d;
    lemma_no_hash_concat(":"@, d);
    let h = cfg.host@;
    let url = cfg.url_text();
    assert(url =~= a + h + bq);
    assert(url == (a + h) + bq);
    assert forall|j: int| !occurs_at(url, en, j) by {
        if occurs_at(url, en, j) {
            lemma_occurrence_first_char(url, en, j);
            if j < a.len() {
                assert(url[j] == a[j]);
            } else if j >= a.len() + h.len() {
                assert(url[j] == bq[j - a.len() - h.len()]);
            } else if j + en.len() > a.len() + h.len() {
                let k: int = (a.len() + h.len()) as int;
                assert(url[k] == ':');
                lemma_occurrence_avoids(url, en, j, k);
            } else {
                lemma_occurrence_in_front(a + h, bq, en, j);
                lemma_occurrence_in_back(a, h, en, j);
            }
        }
    }
}

/// Law: starting a proxy whose host and bypass list hold no end marker in a
/// start-up file without a block, then stopping it, gives back the file
/// without its trailing newlines, which no longer reads as set; and starting
/// it where a block already stands, then stopping it, gives what stopping it
/// at once gives.
pub proof fn lemma_start_then_stop(cfg: crate::proxy::ProxyConfig, shell: Seq<char>, c: Seq<char>)
    requires
        !contains_text(cfg.host@, end_marker()),
        !contains_text(cfg.no_proxy@, end_marker()),
    ensures
        !contains_text(c, start_marker()) ==> removed_text(
            replaced_text(c, config_block(shell, cfg.env_pairs())),
        ) == trim_end_newlines(c) && !has_block_markers(
            removed_text(replaced_text(c, config_block(shell, cfg.env_pairs()))),
        ),
        block_span(c) is Some ==> removed_text(
            replaced_text(c, config_block(shell, cfg.env_pairs())),
        ) == removed_text(c),
{
    lemma_markers_like();
    lemma_env_pairs_keep_out(cfg, end_marker());
    lemma_rendered_block_is_managed(shell, cfg.env_pairs());
    let b = config_block(shell, cfg.env_pairs());
    if !contains_text(c, start_marker()) {
        lemma_set_then_unset_fresh(c, b);
    }
    if block_span(c) is Some {
        lemma_set_existing(c, b);
    }
}

/// Law: after the block for any variables is put into any start-up file,
/// the file reads as one where the proxy is set.
pub proof fn lemma_set_reads_as_set(c: Seq<char>, shell: Seq<char>, pairs: Seq<(Seq<char>, Seq<char>)>)
    ensures
        has_block_markers(replaced_text(c, config_block(shell, pairs))),
{
    lemma_markers();
    let st = start_marker();
    let en = end_marker();
    let l = config_lines(shell, pairs);
    let b = config_block(shell, pairs);
    let r = replaced_text(c, b);
    lemma_replaced_holds_new(c, b);
    let i = choose|i: int| occurs_at(r, b, i);
    assert(b == st + (l + nl() + en));
    lemma_occurrence_in_front(st, l + nl() + en, st, 0);
    assert(st.subrange(0, st.len() as int) =~= st);
    lemma_occurrence_trans(r, b, st, i, 0);
    let e0 = b.len() - en.len();
    assert(b == (st + l + nl()) + en);
    lemma_occurrence_in_back(st + l + nl(), en, en, e0);
    assert(en.subrange(0, en.len() as int) =~= en);
    lemma_occurrence_trans(r, b, en, i, e0);
}

/// Law: setting the proxy twice in a start-up file that held no block leaves
/// one block, the second, in place of the first: the file without its
/// trailing newlines, then the second block, each on a line of its own.
pub proof fn lemma_set_twice_fresh(c: Seq<char>, b1: Seq<char>, b2: Seq<char>)
    requires
        !contains_text(c, start_marker()),
        is_managed_block(b1),
    ensures
        replaced_text(replaced_text(c, b1), b2) == trim_end_newlines(c) + nl() + b2 + nl(),
{
    lemma_markers();
    lemma_no_occurrence(c, start_marker());
    let t = trim_end_newlines(c);
    lemma_trim_end_idempotent(c);
    assert forall|j: int| 0 <= j < t.len() implies !occurs_at(c, start_marker(), j) by {}
    lemma_prefix_no_start(c, t.len() as int);
    assert(block_span(c) is None);
    let r = replaced_text(c, b1);
    if t.len() == 0 {
        assert(r == b1);
        assert(b1.take(0) =~= Seq::<char>::empty());
        assert(b1.skip(b1.len() as int) =~= Seq::<char>::empty());
        assert(trim_end_newlines(Seq::<char>::empty()) == Seq::<char>::empty());
        assert(trim_start_newlines(Seq::<char>::empty()) == Seq::<char>::empty());
        assert(replaced_text(r, b2) =~= t + nl() + b2 + nl());
    } else {
        let p = t + nl() + nl();
        assert(p =~= t + seq!['\n', '\n']);
        lemma_newline_no_start(t);
        lemma_newline_no_start(t + nl());
        assert(r =~= p + b1 + Seq::<char>::empty());
        lemma_span_around(p, b1, Seq::<char>::empty());
        assert(r.take(p.len() as int) =~= p);
        assert(r.skip((p.len() + b1.len()) as int) =~= Seq::<char>::empty());
        lemma_trim_end_newline(t + nl());
        lemma_trim_end_newline(t);
        assert(trim_start_newlines(Seq::<char>::empty()) == Seq::<char>::empty());
        assert(replaced_text(r, b2) =~= t + nl() + b2 + nl());
    }
}

proof fn lemma_trim_start_is_suffix(y: Seq<char>)
    ensures
        trim_start_newlines(y).len() <= y.len(),
        trim_start_newlines(y) == y.skip(y.len() - trim_start_newlines(y).len()),
    decreases y.len(),
{
    if y.len() > 0 && y[0] == '\n' {
        lemma_trim_start_is_suffix(y.drop_first());
        assert(y.drop_first().skip(y.drop_first().len() - trim_start_newlines(y).len()) =~= y.skip(
            y.len() - trim_start_newlines(y).len(),
        ));
    } else {
        assert(y.skip(0) =~= y);
    }
}

/// An occurrence in a tail of `b` is one in `b`.
proof fn lemma_occurrence_in_tail(b: Seq<char>, pat: Seq<char>, q: int, i: int)
    requires
        0 <= q <= b.len(),
        0 <= i,
        occurs_at(b.skip(q), pat, i),
    ensures
        occurs_at(b, pat, q + i),
{
    assert(b =~= b.take(q) + b.skip(q));
    lemma_occurrence_in_back(b.take(q), b.skip(q), pat, q + i);
}

/// The block written for variables whose names hold no `#` and whose values
/// hold no start marker holds the start marker only where it opens.
proof fn lemma_block_starts_once(shell: Seq<char>, pairs: Seq<(Seq<char>, Seq<char>)>)
    requires
        forall|i: int|
            0 <= i < pairs.len() ==> has_no_hash(#[trigger] pairs[i].0) && !contains_text(
                pairs[i].1,
                start_marker(),
            ),
    ensures
        forall|j: int| #[trigger] occurs_at(config_block(shell, pairs), start_marker(), j) ==> j == 0,
{
    lemma_markers_like();
    lemma_lines_keep_out(shell, pairs, start_marker());
    lemma_markers();
    reveal_strlit("# Proxy Term - Start");
    reveal_strlit("# Proxy Term - End");
    let st = start_marker();
    let en = end_marker();
    let l = config_lines(shell, pairs);
    let b = config_block(shell, pairs);
    assert(b == st + (l + (nl() + en)));
    assert forall|j: int| #[trigger] occurs_at(b, st, j) implies j == 0 by {
        if j != 0 {
            lemma_occurrence_first_char(b, st, j);
            if j < st.len() {
                assert(b[j] == st[j]);
            } else if j + st.len() <= st.len() + l.len() {
                lemma_occurrence_in_back(st, l + (nl() + en), st, j);
                lemma_occurrence_in_front(l, nl() + en, st, j - st.len());
            } else if j <= st.len() + l.len() {
                let k: int = (st.len() + l.len()) as int;
                assert(b[k] == '\n');
                lemma_occurrence_avoids(b, st, j, k);
            }
        }
    }
}

/// Law: starting a proxy whose host and bypass list hold no start-marker text
/// in a start-up file without a block, then stopping it, leaves a file that
/// does not read as set, whatever end-marker text they hold.
pub proof fn lemma_stop_reads_unset(cfg: crate::proxy::ProxyConfig, shell: Seq<char>, c: Seq<char>)
    requires
        !contains_text(c, start_marker()),
        !contains_text(cfg.host@, start_marker()),
        !contains_text(cfg.no_proxy@, start_marker()),
    ensures
        !has_block_markers(removed_text(replaced_text(c, config_block(shell, cfg.env_pairs())))),
{
    lemma_markers();
    lemma_markers_like();
    lemma_env_pairs_keep_out(cfg, start_marker());
    lemma_block_starts_once(shell, cfg.env_pairs());
    reveal_strlit("# Proxy Term - Start");
    reveal_strlit("# Proxy Term - End");
    let st = start_marker();
    let en = end_marker();
    let b = config_block(shell, cfg.env_pairs());
    let l = config_lines(shell, cfg.env_pairs());
    lemma_no_occurrence(c, st);
    let t = trim_end_newlines(c);
    lemma_trim_end_idempotent(c);
    assert forall|j: int| 0 <= j < t.len() implies !occurs_at(c, st, j) by {}
    lemma_prefix_no_start(c, t.len() as int);
    assert(block_span(c) is None);
    let p = if t.len() == 0 {
        Seq::<char>::empty()
    } else {
        t + nl() + nl()
    };
    let r = replaced_text(c, b);
    if t.len() == 0 {
        assert(r =~= p + b);
        assert forall|j: int| !occurs_at(p, st, j) by {}
    } else {
        assert(r =~= p + b);
        lemma_newline_no_start(t);
        lemma_newline_no_start(t + nl());
        lemma_trim_end_newline(t + nl());
        lemma_trim_end_newline(t);
    }
    // The block's start marker is the first in `r`.
    let m = p.len() as int;
    assert(b == st + (l + nl() + en));
    lemma_occurrence_in_front(st, l + nl() + en, st, 0);
    assert(st.subrange(0, st.len() as int) =~= st);
    assert(r == p + (b + Seq::<char>::empty()));
    lemma_occurrence_in_back(p, b, st, m);
    assert forall|j: int| 0 <= j < m implies !occurs_at(r, st, j) by {
        if occurs_at(r, st, j) {
            if j + st.len() <= m {
                lemma_occurrence_in_front(p, b, st, j);
            } else {
                assert(r[m - 1] == '\n');
                lemma_occurrence_avoids(r, st, j, m - 1);
            }
        }
    }
    crate::text::lemma_find_from_at(r, st, 0, m);
    // Some end marker follows it.
    let e0 = b.len() - en.len();
    assert(b == (st + l + nl()) + en);
    lemma_occurrence_in_back(st + l + nl(), en, en, e0);
    assert(en.subrange(0, en.len() as int) =~= en);
    lemma_occurrence_in_back(p, b, en, m + e0);
    crate::text::lemma_find_from_first(r, en, m + st.len());
    let k = find_from(r, en, m + st.len()).unwrap();
    let e = k + en.len();
    assert(block_span(r) == Some((m, e)));
    // What is left holds no start marker.
    let before = trim_end_newlines(r.take(m));
    assert(r.take(m) =~= p);
    assert(before == t);
    let rest = r.skip(e);
    let after = trim_start_newlines(rest);
    lemma_trim_start_is_suffix(rest);
    let q: int = e - m + (rest.len() - after.len());
    assert(after =~= b.skip(q));
    assert forall|i: int| !occurs_at(after, st, i) by {
        if occurs_at(after, st, i) {
            lemma_occurrence_in_tail(b, st, q, i);
        }
    }
    let out = removed_text(r);
    if before.len() == 0 {
        assert(out == after);
    } else if after.len() == 0 {
        assert(out == before);
    } else {
        lemma_newline_no_start(before);
        assert(out == (before + nl()) + after);
        assert forall|j: int| !occurs_at(out, st, j) by {
            if occurs_at(out, st, j) {
                if j + st.len() <= before.len() + 1 {
                    lemma_occurrence_in_front(before + nl(), after, st, j);
                } else if j >= before.len() + 1 {
                    lemma_occurrence_in_back(before + nl(), after, st, j);
                } else {
                    let k2: int = before.len() as int;
                    assert(out[k2] == '\n');
                    lemma_occurrence_avoids(out, st, j, k2);
                }
            }
        }
    }
}

} // verus!
