//! The command-line documentation: the generated Markdown, grouped by role.
//!
//! The page has an overview, then one part per role; within a part each command's
//! section stands one heading level lower than it was generated at.
use vstd::prelude::*;
use vstd::string::StringExecFns;

use crate::text;

verus! {

/// Where a string first occurs within another.
pub open spec fn first_match(s: Seq<char>, p: Seq<char>) -> Option<int>
    decreases s.len(),
{
    if s.len() < p.len() {
        None
    } else if p.is_prefix_of(s) {
        Some(0)
    } else if s.len() == 0 {
        None
    } else {
        match first_match(s.skip(1), p) {
            Some(i) => Some(i + 1),
            None => None,
        }
    }
}

/// Where a string last occurs within another.
pub open spec fn last_match(s: Seq<char>, p: Seq<char>) -> Option<int>
    decreases s.len(),
{
    if s.len() < p.len() {
        None
    } else if p.is_suffix_of(s) {
        Some(s.len() - p.len())
    } else if s.len() == 0 {
        None
    } else {
        last_match(s.drop_last(), p)
    }
}

/// Whether the characters from `at` on begin with a pattern.
fn matches_at(v: &Vec<char>, at: usize, p: &Vec<char>) -> (r: bool)
    requires
        at + p@.len() <= v@.len(),
    ensures
        r == (v@.subrange(at as int, at + p@.len()) == p@),
{
    let mut j: usize = 0;
    while j < p.len()
        invariant
            at + p@.len() <= v.len(),
            j <= p@.len(),
            forall|k: int| 0 <= k < j ==> v@[at + k] == p@[k],
        decreases p@.len() - j,
    {
        if v[at + j] != p[j] {
            assert(v@.subrange(at as int, at + p@.len())[j as int] != p@[j as int]);
            return false;
        }
        j = j + 1;
    }
    assert(v@.subrange(at as int, at + p@.len()) =~= p@);
    true
}

proof fn lemma_first_match(s: Seq<char>, p: Seq<char>, i: int)
    requires
        0 <= i,
        i + p.len() <= s.len() ==> s.subrange(i, i + p.len()) == p,
        forall|k: int| 0 <= k < i && k + p.len() <= s.len() ==> #[trigger] s.subrange(k, k + p.len())
            != p,
    ensures
        i + p.len() <= s.len() ==> first_match(s, p) == Some(i),
        i + p.len() > s.len() ==> first_match(s, p) is None,
    decreases i,
{
    if s.len() >= p.len() {
        if i == 0 {
            assert(s.subrange(0, p.len() as int) == p);
        } else {
            assert(s.subrange(0int, 0int + p.len()) != p);
            if s.len() > 0 {
                let t = s.skip(1);
                assert forall|k: int| 0 <= k < i - 1 && k + p.len() <= t.len() implies #[trigger]
                    t.subrange(k, k + p.len()) != p by {
                    assert(t.subrange(k, k + p.len()) =~= s.subrange(k + 1, k + 1 + p.len()));
                }
                if i - 1 + p.len() <= t.len() {
                    assert(t.subrange(i - 1, i - 1 + p.len()) =~= s.subrange(i, i + p.len()));
                }
                lemma_first_match(t, p, i - 1);
            }
        }
    }
}

proof fn lemma_last_match(s: Seq<char>, p: Seq<char>, n: int, i: Option<int>)
    requires
        0 <= n <= s.len(),
        match i {
            Some(i) => 0 <= i && i + p.len() <= n && s.subrange(i, i + p.len()) == p
                && forall|k: int| i < k && k + p.len() <= n ==> #[trigger] s.subrange(k, k + p.len())
                != p,
            None => forall|k: int| 0 <= k && k + p.len() <= n ==> #[trigger] s.subrange(
                k,
                k + p.len(),
            ) != p,
        },
    ensures
        last_match(s.take(n), p) == i,
    decreases n,
{
    let t = s.take(n);
    if n >= p.len() {
        let last = n - p.len();
        assert(t.subrange(last, n) =~= s.subrange(last, last + p.len()));
        if p.is_suffix_of(t) {
            assert(s.subrange(last, last + p.len()) == p);
        } else {
            assert(s.subrange(last, last + p.len()) != p);
            if n > 0 {
                assert(t.drop_last() =~= s.take(n - 1));
                lemma_last_match(s, p, n - 1, i);
            }
        }
    }
}

/// Where a pattern first occurs.
fn find(v: &Vec<char>, p: &Vec<char>) -> (r: Option<usize>)
    ensures
        match first_match(v@, p@) {
            Some(i) => r is Some && r->0 == i && i + p@.len() <= v@.len(),
            None => r is None,
        },
{
    if p.len() > v.len() {
        proof {
            lemma_first_match(v@, p@, 0);
        }
        return None;
    }
    let last: usize = v.len() - p.len();
    let mut i: usize = 0;
    loop
        invariant
            i <= last,
            last + p@.len() == v@.len(),
            forall|k: int| 0 <= k < i && k + p@.len() <= v@.len() ==> #[trigger] v@.subrange(
                k,
                k + p@.len(),
            ) != p@,
        decreases last - i,
    {
        if matches_at(v, i, p) {
            proof {
                lemma_first_match(v@, p@, i as int);
            }
            return Some(i);
        }
        if i == last {
            proof {
                lemma_first_match(v@, p@, i + 1);
            }
            return None;
        }
        i = i + 1;
    }
}

/// Where a pattern last occurs within the first `n` characters.
fn rfind(v: &Vec<char>, n: usize, p: &Vec<char>) -> (r: Option<usize>)
    requires
        n <= v@.len(),
    ensures
        match last_match(v@.take(n as int), p@) {
            Some(i) => r is Some && r->0 == i && i <= n,
            None => r is None,
        },
{
    if p.len() > n {
        proof {
            lemma_last_match(v@, p@, n as int, None);
        }
        return None;
    }
    let mut i: usize = n - p.len();
    loop
        invariant
            n <= v@.len(),
            i + p@.len() <= n,
            forall|k: int| i < k && k + p@.len() <= n ==> #[trigger] v@.subrange(k, k + p@.len())
                != p@,
        decreases i,
    {
        if matches_at(v, i, p) {
            proof {
                lemma_last_match(v@, p@, n as int, Some(i as int));
            }
            return Some(i);
        }
        if i == 0 {
            proof {
                lemma_last_match(v@, p@, n as int, None);
            }
            return None;
        }
        i = i - 1;
    }
}

/// A page without the note at its end that says how it was generated.
pub open spec fn without_footer(md: Seq<char>) -> Seq<char> {
    match first_match(md, "generated automatically by"@) {
        None => md,
        Some(pos) => match last_match(md.take(pos), "<hr/>"@) {
            None => md,
            Some(hr) => text::trim_end(md.take(hr)),
        },
    }
}

/// Drops the note at the end of a page that says how it was generated.
pub fn strip_clap_footer(md: &str) -> (r: String)
    ensures
        r@ == without_footer(md@),
{
    let v = text::chars_of(md);
    let note = text::chars_of("generated automatically by");
    let rule = text::chars_of("<hr/>");
    if let Some(pos) = find(&v, &note) {
        if let Some(hr) = rfind(&v, pos, &rule) {
            let head = text::string_of(&v, 0, hr);
            assert(head@ =~= md@.take(hr as int));
            return text::without_trailing_space(head.as_str());
        }
    }
    text::owned(md)
}

/// A line without a carriage return at its end.
pub open spec fn without_return(s: Seq<char>) -> Seq<char> {
    if s.len() > 0 && s.last() == '\r' {
        s.drop_last()
    } else {
        s
    }
}

/// The lines of a text.
pub open spec fn lines_of(s: Seq<char>) -> Seq<Seq<char>>
    decreases s.len(),
{
    if s.len() == 0 {
        seq![]
    } else if s.contains('\n') && 0 <= text::first_of(s, '\n') < s.len() {
        seq![without_return(s.take(text::first_of(s, '\n')))] + lines_of(
            s.skip(text::first_of(s, '\n') + 1),
        )
    } else {
        seq![s]
    }
}

proof fn lemma_lines(s: Seq<char>, i: int)
    requires
        0 <= i <= s.len(),
        forall|j: int| 0 <= j < i ==> s[j] != '\n',
        i < s.len() ==> s[i] == '\n',
        s.len() > 0,
    ensures
        i < s.len() ==> lines_of(s) == seq![without_return(s.take(i))] + lines_of(s.skip(i + 1)),
        i == s.len() ==> lines_of(s) == seq![s],
{
    text::lemma_first_of_unique(s, '\n', i);
    text::lemma_first_of(s, '\n');
}

/// The lines of a text.
pub fn lines(s: &str) -> (r: Vec<String>)
    ensures
        text::texts(r@) == lines_of(s@),
{
    let v = text::chars_of(s);
    let mut out: Vec<String> = Vec::new();
    let mut start: usize = 0;
    let mut i: usize = 0;
    assert(v@.skip(0) =~= v@);
    assert(text::texts(out@) + lines_of(v@.skip(0)) =~= lines_of(s@));
    while i < v.len()
        invariant
            v@ == s@,
            start <= i <= v@.len(),
            forall|j: int| start <= j < i ==> v@[j] != '\n',
            text::texts(out@) + lines_of(v@.skip(start as int)) == lines_of(s@),
        decreases v@.len() - i,
    {
        if v[i] == '\n' {
            let ghost before = out@;
            let end: usize = if i > start && v[i - 1] == '\r' {
                i - 1
            } else {
                i
            };
            let line = text::string_of(&v, start, end);
            let ghost item = line@;
            out.push(line);
            proof {
                let rest = v@.skip(start as int);
                assert forall|j: int| 0 <= j < i - start implies rest[j] != '\n' by {
                    assert(v@[start + j] != '\n');
                }
                lemma_lines(rest, i - start);
                assert(item =~= without_return(rest.take(i - start)));
                assert(rest.skip(i - start + 1) =~= v@.skip(i + 1));
                assert(text::texts(out@) =~= text::texts(before).push(item));
                assert(text::texts(out@) + lines_of(v@.skip(i + 1)) =~= text::texts(before) + (
                seq![item] + lines_of(v@.skip(i + 1))));
            }
            start = i + 1;
        }
        i = i + 1;
    }
    if start < v.len() {
        let ghost before = out@;
        let line = text::string_of(&v, start, v.len());
        let ghost item = line@;
        out.push(line);
        proof {
            let rest = v@.skip(start as int);
            assert forall|j: int| 0 <= j < rest.len() implies rest[j] != '\n' by {
                assert(v@[start + j] != '\n');
            }
            lemma_lines(rest, rest.len() as int);
            assert(rest =~= item);
            assert(text::texts(out@) =~= text::texts(before) + seq![item]);
        }
    } else {
        assert(text::texts(out@) + lines_of(v@.skip(start as int)) =~= text::texts(out@));
    }
    out
}

/// Whether a line begins the section of a command.
pub open spec fn is_header(line: Seq<char>) -> bool {
    "## `arkel"@.is_prefix_of(line)
}

/// Where the first header among some lines stands; their number where there is none.
pub open spec fn first_header(lines: Seq<Seq<char>>) -> int
    decreases lines.len(),
{
    if lines.len() == 0 || is_header(lines[0]) {
        0
    } else {
        1 + first_header(lines.skip(1))
    }
}

proof fn lemma_first_header(lines: Seq<Seq<char>>, i: int)
    requires
        0 <= i <= lines.len(),
        forall|j: int| 0 <= j < i ==> !is_header(#[trigger] lines[j]),
        i < lines.len() ==> is_header(lines[i]),
    ensures
        first_header(lines) == i,
    decreases i,
{
    if i > 0 {
        assert(!is_header(lines[0]));
        let t = lines.skip(1);
        assert forall|j: int| 0 <= j < i - 1 implies !is_header(#[trigger] t[j]) by {
            assert(t[j] == lines[j + 1]);
        }
        lemma_first_header(t, i - 1);
    }
}

proof fn lemma_first_header_bounds(lines: Seq<Seq<char>>)
    ensures
        0 <= first_header(lines) <= lines.len(),
    decreases lines.len(),
{
    if lines.len() > 0 && !is_header(lines[0]) {
        lemma_first_header_bounds(lines.skip(1));
    }
}

/// The sections of a page: each header with the trimmed text up to the next one. What
/// stands before the first header belongs to none.
pub open spec fn sections_of(lines: Seq<Seq<char>>) -> Seq<(Seq<char>, Seq<char>)>
    decreases lines.len(),
{
    let h = first_header(lines);
    if 0 <= h < lines.len() {
        let rest = lines.skip(h + 1);
        let n = first_header(rest);
        if 0 <= n <= rest.len() {
            seq![(lines[h], text::trimmed(text::joined(rest.take(n), "\n"@)))] + sections_of(
                rest.skip(n),
            )
        } else {
            seq![]
        }
    } else {
        seq![]
    }
}

/// The contents of some sections.
pub open spec fn section_views(secs: Seq<(String, String)>) -> Seq<(Seq<char>, Seq<char>)> {
    secs.map_values(|s: (String, String)| (s.0@, s.1@))
}

fn next_header(lines: &Vec<String>, from: usize) -> (r: usize)
    requires
        from <= lines@.len(),
    ensures
        from <= r <= lines@.len(),
        r - from == first_header(text::texts(lines@).skip(from as int)),
        r < lines@.len() ==> is_header(lines@[r as int]@),
{
    let ghost rest = text::texts(lines@).skip(from as int);
    let mark = text::chars_of("## `arkel");
    let mut i: usize = from;
    while i < lines.len()
        invariant
            from <= i <= lines@.len(),
            rest == text::texts(lines@).skip(from as int),
            mark@ == "## `arkel"@,
            forall|j: int| 0 <= j < i - from ==> !is_header(#[trigger] rest[j]),
        decreases lines@.len() - i,
    {
        let line = text::chars_of(lines[i].as_str());
        assert(rest[i - from] == lines@[i as int]@);
        if text::starts_with(&line, &mark) {
            proof {
                lemma_first_header(rest, i - from);
            }
            return i;
        }
        i = i + 1;
    }
    proof {
        lemma_first_header(rest, i - from);
    }
    i
}

/// Splits a page into the sections of its commands.
pub fn sections(md: &str) -> (r: Vec<(String, String)>)
    ensures
        section_views(r@) == sections_of(lines_of(md@)),
{
    let all = lines(md);
    let ghost views = text::texts(all@);
    let mut out: Vec<(String, String)> = Vec::new();
    let mut at: usize = next_header(&all, 0);
    proof {
        assert(views.skip(0) =~= views);
        lemma_skip_to_header(views, at as int);
        assert(section_views(out@) + sections_of(views.skip(at as int)) =~= sections_of(views));
    }
    while at < all.len()
        invariant
            at <= all@.len(),
            views == text::texts(all@),
            at < all@.len() ==> is_header(all@[at as int]@),
            section_views(out@) + sections_of(views.skip(at as int)) == sections_of(views),
        decreases all@.len() - at,
    {
        let next: usize = next_header(&all, at + 1);
        let mut body: Vec<String> = Vec::new();
        let mut i: usize = at + 1;
        while i < next
            invariant
                at + 1 <= i <= next <= all@.len(),
                views == text::texts(all@),
                text::texts(body@) == views.subrange(at + 1, i as int),
            decreases next - i,
        {
            let ghost before = body@;
            body.push(all[i].clone());
            i = i + 1;
            assert(text::texts(body@) =~= text::texts(before).push(views[i - 1]));
            assert(text::texts(body@) =~= views.subrange(at + 1, i as int));
        }
        let joined = text::join(&body, "\n");
        let content = text::trim(joined.as_str());
        let ghost before = out@;
        let ghost item = (all@[at as int]@, content@);
        out.push((all[at].clone(), content));
        proof {
            let here = views.skip(at as int);
            assert(here[0] == all@[at as int]@);
            assert(first_header(here) == 0);
            let rest = here.skip(1);
            assert(rest =~= views.skip(at + 1));
            let n = next - (at + 1);
            assert(rest.take(n) =~= views.subrange(at + 1, next as int));
            assert(rest.skip(n) =~= views.skip(next as int));
            assert(sections_of(here) == seq![item] + sections_of(views.skip(next as int)));
            assert(section_views(out@) =~= section_views(before).push(item));
            assert(section_views(out@) + sections_of(views.skip(next as int)) =~= section_views(
                before,
            ) + sections_of(here));
        }
        at = next;
    }
    proof {
        assert(views.skip(at as int).len() == 0);
        assert(section_views(out@) =~= section_views(out@) + sections_of(views.skip(at as int)));
    }
    out
}

/// Lines before the first header do not matter.
proof fn lemma_skip_to_header(lines: Seq<Seq<char>>, h: int)
    requires
        h == first_header(lines),
        0 <= h <= lines.len(),
    ensures
        sections_of(lines) == sections_of(lines.skip(h)),
{
    let t = lines.skip(h);
    if h < lines.len() {
        lemma_header_at(lines);
        assert(t[0] == lines[h]);
        assert(first_header(t) == 0);
        assert(t.skip(1) =~= lines.skip(h + 1));
    } else {
        assert(t.len() == 0);
    }
}

proof fn lemma_header_at(lines: Seq<Seq<char>>)
    ensures
        0 <= first_header(lines) < lines.len() ==> is_header(lines[first_header(lines)]),
    decreases lines.len(),
{
    if lines.len() > 0 && !is_header(lines[0]) {
        lemma_first_header_bounds(lines.skip(1));
        lemma_header_at(lines.skip(1));
    }
}

/// The part of a string before its first backtick or space.
pub open spec fn first_word(s: Seq<char>) -> Seq<char>
    decreases s.len(),
{
    if s.len() == 0 || s[0] == '`' || s[0] == ' ' {
        seq![]
    } else {
        seq![s[0]] + first_word(s.skip(1))
    }
}

/// The command that a section is about, such as `client` of a header that names
/// `arkel client put`.
pub open spec fn command_of(header: Seq<char>) -> Seq<char> {
    if is_header(header) {
        text::trimmed(first_word(text::trimmed(header.skip("## `arkel"@.len() as int))))
    } else {
        text::trimmed(first_word(text::trimmed(seq![])))
    }
}

proof fn lemma_first_word(s: Seq<char>, i: int)
    requires
        0 <= i <= s.len(),
        forall|j: int| 0 <= j < i ==> s[j] != '`' && s[j] != ' ',
        i < s.len() ==> s[i] == '`' || s[i] == ' ',
    ensures
        first_word(s) == s.take(i),
    decreases i,
{
    if i > 0 {
        let t = s.skip(1);
        assert forall|j: int| 0 <= j < i - 1 implies t[j] != '`' && t[j] != ' ' by {
            assert(t[j] == s[j + 1]);
        }
        lemma_first_word(t, i - 1);
        assert(s[0] != '`' && s[0] != ' ');
        assert(seq![s[0]] + t.take(i - 1) =~= s.take(i));
    } else {
        assert(s.take(0) =~= seq![]);
    }
}

/// The command that a section is about.
pub fn top_level(header: &str) -> (r: String)
    ensures
        r@ == command_of(header@),
{
    let rest = match text::strip_prefix(header, "## `arkel") {
        Some(rest) => rest,
        None => String::new(),
    };
    assert(!is_header(header@) ==> rest@ =~= seq![]);
    let words = text::trim(rest.as_str());
    let v = text::chars_of(words.as_str());
    let mut i: usize = 0;
    while i < v.len() && v[i] != '`' && v[i] != ' '
        invariant
            i <= v@.len(),
            forall|j: int| 0 <= j < i ==> v@[j] != '`' && v@[j] != ' ',
        decreases v@.len() - i,
    {
        i = i + 1;
    }
    let word = text::string_of(&v, 0, i);
    proof {
        lemma_first_word(v@, i as int);
        assert(word@ =~= v@.take(i as int));
    }
    text::trim(word.as_str())
}

/// A line of the overview: a command in a list becomes a link to its section; any
/// other line stays.
pub open spec fn linked_line(line: Seq<char>) -> Seq<char> {
    let t = text::trim_start(line);
    if "* `"@.is_prefix_of(t) {
        match text::split_once(t.skip("* `"@.len() as int), '`') {
            Some((name, tail)) => if "--"@.is_prefix_of(name) {
                line
            } else {
                "* [`"@ + name + "`](#arkel-"@ + name + ")"@ + tail
            },
            None => line,
        }
    } else {
        line
    }
}

/// Lines, each with a newline behind it.
pub open spec fn with_newlines(lines: Seq<Seq<char>>) -> Seq<char>
    decreases lines.len(),
{
    if lines.len() == 0 {
        seq![]
    } else {
        with_newlines(lines.drop_last()) + lines.last() + "\n"@
    }
}

/// A text with its list of commands turned into links.
pub open spec fn linked(body: Seq<char>) -> Seq<char> {
    with_newlines(lines_of(body).map_values(|l: Seq<char>| linked_line(l)))
}

fn link_line(line: &str) -> (r: String)
    ensures
        r@ == linked_line(line@),
{
    let t = text::without_leading_space(line);
    if let Some(rest) = text::strip_prefix(t.as_str(), "* `") {
        if let Some((name, tail)) = text::split_at_char(rest.as_str(), '`') {
            let v = text::chars_of(name.as_str());
            let dashes = text::chars_of("--");
            if !text::starts_with(&v, &dashes) {
                let mut out = text::join3("* [`", name.as_str(), "`](#arkel-");
                out.append(name.as_str());
                out.append(")");
                out.append(tail.as_str());
                return out;
            }
        }
    }
    text::owned(line)
}

/// Turns the list of commands in a text into links to their sections. Options in the
/// list stay as they are.
pub fn linkify_subcommands(body: &str) -> (r: String)
    ensures
        r@ == linked(body@),
{
    let all = lines(body);
    let ghost views = text::texts(all@).map_values(|l: Seq<char>| linked_line(l));
    let mut out = String::new();
    let mut i: usize = 0;
    assert(views.take(0) =~= Seq::<Seq<char>>::empty());
    while i < all.len()
        invariant
            i <= all@.len(),
            views == text::texts(all@).map_values(|l: Seq<char>| linked_line(l)),
            out@ == with_newlines(views.take(i as int)),
        decreases all@.len() - i,
    {
        out.append(link_line(all[i].as_str()).as_str());
        out.append("\n");
        proof {
            assert(views.take(i + 1).drop_last() =~= views.take(i as int));
            assert(views.take(i + 1).last() == linked_line(all@[i as int]@));
        }
        i = i + 1;
    }
    assert(views.take(i as int) =~= views);
    out
}

/// The roles that commands are grouped by.
#[derive(Debug, Clone, Copy, PartialEq, Eq, Structural)]
pub enum Role {
    User,
    StorageOperator,
    NetworkOperator,
}

impl Role {
    /// The heading of the role.
    pub open spec fn heading(&self) -> Seq<char> {
        match *self {
            Role::User => "Using Arkel"@,
            Role::StorageOperator => "Running a storage node"@,
            Role::NetworkOperator => "Operating the network"@,
        }
    }

    /// Whether a command belongs to the role.
    pub open spec fn has(&self, command: Seq<char>) -> bool {
        match *self {
            Role::User => command == "client"@ || command == "account"@,
            Role::StorageOperator => command == "storage"@,
            Role::NetworkOperator => command == "payment"@ || command == "repair"@,
        }
    }

    /// The heading of the role.
    pub fn title(&self) -> (r: String)
        ensures
            r@ == self.heading(),
    {
        match self {
            Role::User => text::owned("Using Arkel"),
            Role::StorageOperator => text::owned("Running a storage node"),
            Role::NetworkOperator => text::owned("Operating the network"),
        }
    }

    /// Whether a command belongs to the role.
    pub fn includes(&self, command: &str) -> (r: bool)
        ensures
            r == self.has(command@),
    {
        match self {
            Role::User => text::same_text(command, "client") || text::same_text(command, "account"),
            Role::StorageOperator => text::same_text(command, "storage"),
            Role::NetworkOperator => text::same_text(command, "payment") || text::same_text(
                command,
                "repair",
            ),
        }
    }
}

/// The anchor of a heading: lower case, with dashes for spaces.
pub open spec fn anchor_of(title: Seq<char>) -> Seq<char> {
    title.map_values(
        |c: char|
            if c == ' ' {
                '-'
            } else if 'A' <= c <= 'Z' {
                (c as u32 + 32) as char
            } else {
                c
            },
    )
}

fn anchor(title: &str) -> (r: String)
    ensures
        r@ == anchor_of(title@),
{
    let v = text::chars_of(title);
    let mut out = String::new();
    let mut i: usize = 0;
    while i < v.len()
        invariant
            v@ == title@,
            i <= v@.len(),
            out@ == anchor_of(title@.take(i as int)),
        decreases v@.len() - i,
    {
        let c: char = v[i];
        if c == ' ' {
            out.push('-');
        } else if 'A' <= c && c <= 'Z' {
            out.push((c as u8 + 32) as char);
        } else {
            out.push(c);
        }
        i = i + 1;
        assert(out@ =~= anchor_of(title@.take(i as int)));
    }
    assert(title@.take(i as int) =~= title@);
    out
}

/// The line of the overview's index that leads to a role.
pub open spec fn index_line(role: Role) -> Seq<char> {
    "* ["@ + role.heading() + "](#"@ + anchor_of(role.heading()) + ")\n"@
}

fn push_index_line(out: &mut String, role: Role)
    ensures
        final(out)@ == old(out)@ + index_line(role),
{
    let title = role.title();
    let ghost start = out@;
    out.append("* [");
    out.append(title.as_str());
    out.append("](#");
    out.append(anchor(title.as_str()).as_str());
    out.append(")\n");
    assert(out@ =~= start + index_line(role));
}

/// The overview, made of the section of the program itself.
pub open spec fn overview(body: Seq<char>) -> Seq<char> {
    "## Overview\n\n"@ + "###### **Index:**\n\n"@ + index_line(Role::User) + index_line(
        Role::StorageOperator,
    ) + index_line(Role::NetworkOperator) + "\n"@ + linked(body) + "\n\n"@
}

/// Whether a section is that of the program itself.
pub open spec fn is_root(header: Seq<char>) -> bool {
    header == "## `arkel`"@
}

/// The overviews that some sections give.
pub open spec fn overviews(secs: Seq<(Seq<char>, Seq<char>)>) -> Seq<char>
    decreases secs.len(),
{
    if secs.len() == 0 {
        seq![]
    } else if is_root(secs.last().0) {
        overviews(secs.drop_last()) + overview(secs.last().1)
    } else {
        overviews(secs.drop_last())
    }
}

/// A command's section, one level lower.
pub open spec fn demoted(section: (Seq<char>, Seq<char>)) -> Seq<char> {
    "### "@ + section.0.skip(3) + "\n"@ + section.1 + "\n\n"@
}

/// The sections of the commands that belong to a role.
pub open spec fn role_sections(role: Role, secs: Seq<(Seq<char>, Seq<char>)>) -> Seq<char>
    decreases secs.len(),
{
    if secs.len() == 0 {
        seq![]
    } else if !is_root(secs.last().0) && role.has(command_of(secs.last().0)) {
        role_sections(role, secs.drop_last()) + demoted(secs.last())
    } else {
        role_sections(role, secs.drop_last())
    }
}

/// The part of the page for a role.
pub open spec fn role_part(role: Role, secs: Seq<(Seq<char>, Seq<char>)>) -> Seq<char> {
    "## "@ + role.heading() + "\n\n"@ + role_sections(role, secs)
}

/// A page, grouped by role.
pub open spec fn regrouped(md: Seq<char>) -> Seq<char> {
    let secs = sections_of(lines_of(md));
    overviews(secs) + role_part(Role::User, secs) + role_part(Role::StorageOperator, secs)
        + role_part(Role::NetworkOperator, secs)
}

/// Every section begins with its header.
proof fn lemma_headers(lines: Seq<Seq<char>>)
    ensures
        forall|i: int| 0 <= i < sections_of(lines).len() ==> is_header(
            (#[trigger] sections_of(lines)[i]).0,
        ),
    decreases lines.len(),
{
    lemma_first_header_bounds(lines);
    lemma_header_at(lines);
    let h = first_header(lines);
    if h < lines.len() {
        let rest = lines.skip(h + 1);
        lemma_first_header_bounds(rest);
        let n = first_header(rest);
        lemma_headers(rest.skip(n));
        let tail = sections_of(rest.skip(n));
        assert forall|i: int| 0 <= i < sections_of(lines).len() implies is_header(
            (#[trigger] sections_of(lines)[i]).0,
        ) by {
            if i > 0 {
                assert(sections_of(lines)[i] == tail[i - 1]);
            }
        }
    }
}

fn push_role_part(out: &mut String, role: Role, secs: &Vec<(String, String)>)
    requires
        forall|i: int| 0 <= i < secs@.len() ==> is_header((#[trigger] secs@[i]).0@),
    ensures
        final(out)@ == old(out)@ + role_part(role, section_views(secs@)),
{
    let ghost start = out@;
    let ghost views = section_views(secs@);
    out.append("## ");
    out.append(role.title().as_str());
    out.append("\n\n");
    let ghost head = "## "@ + role.heading() + "\n\n"@;
    assert(out@ =~= start + head + role_sections(role, views.take(0)));
    let mut i: usize = 0;
    while i < secs.len()
        invariant
            i <= secs@.len(),
            views == section_views(secs@),
            forall|i: int| 0 <= i < secs@.len() ==> is_header((#[trigger] secs@[i]).0@),
            out@ == start + head + role_sections(role, views.take(i as int)),
        decreases secs@.len() - i,
    {
        let ghost before = out@;
        proof {
            assert(views.take(i + 1).drop_last() =~= views.take(i as int));
            assert(views.take(i + 1).last() == views[i as int]);
        }
        if !text::same_text(secs[i].0.as_str(), "## `arkel`") && role.includes(
            top_level(secs[i].0.as_str()).as_str(),
        ) {
            let header = text::chars_of(secs[i].0.as_str());
            proof {
                reveal_strlit("## `arkel");
                assert(is_header(secs@[i as int].0@));
            }
            let name = text::string_of(&header, 3, header.len());
            assert(name@ =~= secs@[i as int].0@.skip(3));
            out.append("### ");
            out.append(name.as_str());
            out.append("\n");
            out.append(secs[i].1.as_str());
            out.append("\n\n");
            assert(out@ =~= before + demoted(views[i as int]));
            assert(out@ =~= start + head + role_sections(role, views.take(i + 1)));
        }
        i = i + 1;
    }
    assert(views.take(i as int) =~= views);
    assert(out@ =~= start + role_part(role, views));
}

/// Groups the sections of a page by role, behind an overview.
pub fn regroup(md: &str) -> (r: String)
    ensures
        r@ == regrouped(md@),
{
    let secs = sections(md);
    let ghost views = section_views(secs@);
    proof {
        lemma_headers(lines_of(md@));
        assert forall|i: int| 0 <= i < secs@.len() implies is_header((#[trigger] secs@[i]).0@) by {
            assert(views[i].0 == secs@[i].0@);
        }
    }
    let mut out = String::new();
    let mut i: usize = 0;
    assert(out@ =~= overviews(views.take(0)));
    while i < secs.len()
        invariant
            i <= secs@.len(),
            views == section_views(secs@),
            out@ == overviews(views.take(i as int)),
        decreases secs@.len() - i,
    {
        let ghost before = out@;
        proof {
            assert(views.take(i + 1).drop_last() =~= views.take(i as int));
            assert(views.take(i + 1).last() == views[i as int]);
        }
        if text::same_text(secs[i].0.as_str(), "## `arkel`") {
            out.append("## Overview\n\n");
            out.append("###### **Index:**\n\n");
            push_index_line(&mut out, Role::User);
            push_index_line(&mut out, Role::StorageOperator);
            push_index_line(&mut out, Role::NetworkOperator);
            out.append("\n");
            out.append(linkify_subcommands(secs[i].1.as_str()).as_str());
            out.append("\n\n");
            assert(out@ =~= before + overview(views[i as int].1));
        }
        i = i + 1;
    }
    assert(views.take(i as int) =~= views);
    push_role_part(&mut out, Role::User, &secs);
    push_role_part(&mut out, Role::StorageOperator, &secs);
    push_role_part(&mut out, Role::NetworkOperator, &secs);
    out
}

} // verus!
