//! Laws of the command reference.
//!
//! `call_ensures(f, args, r)` says that a call of `f` with `args` may return `r`.
use vstd::prelude::*;

use crate::docs;
use crate::docs::Role;
use crate::laws::settings;
use crate::text;

verus! {

/// Whether a text occurs in another at a place.
pub open spec fn occurs_at(s: Seq<char>, p: Seq<char>, i: int) -> bool {
    0 <= i && i + p.len() <= s.len() && s.subrange(i, i + p.len()) == p
}

/// The first place where a text occurs in another is one, and none comes before it;
/// the last one likewise.
pub proof fn matches_are_found(s: Seq<char>, p: Seq<char>, i: int)
    ensures
        match docs::first_match(s, p) {
            Some(at) => occurs_at(s, p, at) && (i < at ==> !occurs_at(s, p, i)),
            None => !occurs_at(s, p, i),
        },
        match docs::last_match(s, p) {
            Some(at) => occurs_at(s, p, at) && (i > at ==> !occurs_at(s, p, i)),
            None => !occurs_at(s, p, i),
        },
{
    lemma_first(s, p, i);
    lemma_last(s, p, i);
}

proof fn lemma_first(s: Seq<char>, p: Seq<char>, i: int)
    ensures
        match docs::first_match(s, p) {
            Some(at) => occurs_at(s, p, at) && (i < at ==> !occurs_at(s, p, i)),
            None => !occurs_at(s, p, i),
        },
    decreases s.len(),
{
    if s.len() >= p.len() {
        if p.is_prefix_of(s) {
            assert(s.subrange(0, p.len() as int) =~= p);
        } else if s.len() > 0 {
            let t = s.skip(1);
            lemma_first(t, p, i - 1);
            match docs::first_match(t, p) {
                Some(at) => {
                    assert(t.subrange(at, at + p.len()) =~= s.subrange(at + 1, at + 1 + p.len()));
                },
                None => {},
            }
            if occurs_at(s, p, i) {
                if i == 0 {
                    assert(s.subrange(0, p.len() as int) == p);
                    assert(p.is_prefix_of(s));
                } else {
                    assert(t.subrange(i - 1, i - 1 + p.len()) =~= s.subrange(i, i + p.len()));
                }
            }
        }
    }
}

proof fn lemma_last(s: Seq<char>, p: Seq<char>, i: int)
    ensures
        match docs::last_match(s, p) {
            Some(at) => occurs_at(s, p, at) && (i > at ==> !occurs_at(s, p, i)),
            None => !occurs_at(s, p, i),
        },
    decreases s.len(),
{
    if s.len() >= p.len() {
        let n = s.len() as int;
        if p.is_suffix_of(s) {
            assert(s.subrange(n - p.len(), n) =~= p);
        } else if s.len() > 0 {
            let t = s.drop_last();
            lemma_last(t, p, i);
            match docs::last_match(t, p) {
                Some(at) => {
                    assert(t.subrange(at, at + p.len()) =~= s.subrange(at, at + p.len()));
                },
                None => {},
            }
            if occurs_at(s, p, i) {
                if i + p.len() == n {
                    assert(s.subrange(n - p.len(), n) == p);
                    assert(p.is_suffix_of(s));
                } else {
                    assert(t.subrange(i, i + p.len()) =~= s.subrange(i, i + p.len()));
                }
            }
        }
    }
}

/// A page loses what stands from the last rule before the note on, and the white space
/// before that; a page without the note stays as it is.
pub proof fn footers_are_cut_off(md: &str, r: String, rule: int, note: int)
    requires
        call_ensures(docs::strip_clap_footer, (md,), r),
    ensures
        (forall|i: int| !occurs_at(md@, "generated automatically by"@, i)) ==> r@ == md@,
        occurs_at(md@, "generated automatically by"@, note) && (forall|i: int|
            i < note ==> !#[trigger] occurs_at(md@, "generated automatically by"@, i))
            && occurs_at(md@.take(note), "<hr/>"@, rule) && (forall|i: int|
            i > rule ==> !#[trigger] occurs_at(md@.take(note), "<hr/>"@, i)) ==> exists|end: int|
            0 <= end <= rule && r@ == #[trigger] md@.take(end) && (end > 0 ==> !text::is_space(
                md@[end - 1],
            )) && forall|i: int| end <= i < rule ==> text::is_space(#[trigger] md@[i]),
{
    let p = "generated automatically by"@;
    let q = "<hr/>"@;
    match docs::first_match(md@, p) {
        Some(at) => {
            lemma_first(md@, p, at);
            lemma_first(md@, p, note);
            if occurs_at(md@, p, note) && (forall|i: int|
                i < note ==> !#[trigger] occurs_at(md@, p, i)) && occurs_at(
                md@.take(note),
                q,
                rule,
            ) && (forall|i: int| i > rule ==> !#[trigger] occurs_at(md@.take(note), q, i)) {
                assert(at == note) by {
                    if at < note {
                        assert(!occurs_at(md@, p, at));
                    }
                }
                let head = md@.take(note);
                lemma_last(head, q, rule);
                let hr = docs::last_match(head, q)->0;
                lemma_last(head, q, hr);
                assert(hr == rule) by {
                    if hr > rule {
                        assert(!occurs_at(head, q, hr));
                    }
                }
                let kept = md@.take(rule);
                assert(head.take(rule) =~= kept);
                let end = lemma_trim_end(kept);
                assert(kept.take(end) =~= md@.take(end));
                if end > 0 {
                    assert(kept[end - 1] == md@[end - 1]);
                }
                assert forall|i: int| end <= i < rule implies text::is_space(
                    #[trigger] md@[i],
                ) by {
                    assert(kept[i] == md@[i]);
                }
                assert(r@ == md@.take(end));
            }
        },
        None => {
            lemma_first(md@, p, note);
        },
    }
    if forall|i: int| !occurs_at(md@, p, i) {
        match docs::first_match(md@, p) {
            Some(at) => {
                lemma_first(md@, p, at);
                assert(!occurs_at(md@, p, at));
            },
            None => {},
        }
    }
}

proof fn lemma_trim_end(s: Seq<char>) -> (b: int)
    ensures
        0 <= b <= s.len(),
        text::trim_end(s) == s.take(b),
        forall|i: int| b <= i < s.len() ==> text::is_space(#[trigger] s[i]),
        b > 0 ==> !text::is_space(s[b - 1]),
    decreases s.len(),
{
    if s.len() > 0 && text::is_space(s.last()) {
        let front = s.drop_last();
        let b = lemma_trim_end(front);
        assert(front.take(b) =~= s.take(b));
        assert forall|i: int| b <= i < s.len() implies text::is_space(#[trigger] s[i]) by {
            if i < front.len() {
                assert(front[i] == s[i]);
            }
        }
        if b > 0 {
            assert(front[b - 1] == s[b - 1]);
        }
        b
    } else {
        assert(s.take(s.len() as int) =~= s);
        s.len() as int
    }
}

/// A text is cut into lines at its newlines; a carriage return before one goes with it,
/// and a newline at the end begins no further line.
pub proof fn lines_end_at_newlines(line: Seq<char>, rest: Seq<char>)
    requires
        !line.contains('\n'),
        line.len() > 0 ==> line.last() != '\r',
    ensures
        docs::lines_of(line + seq!['\n'] + rest) == seq![line] + docs::lines_of(rest),
        docs::lines_of(line + seq!['\r', '\n'] + rest) == seq![line] + docs::lines_of(rest),
        line.len() > 0 ==> docs::lines_of(line) == seq![line],
        docs::lines_of(Seq::empty()) == Seq::<Seq<char>>::empty(),
{
    let n = line.len() as int;
    let a = line + seq!['\n'] + rest;
    let b = line + seq!['\r', '\n'] + rest;
    assert forall|j: int| 0 <= j < n implies line[j] != '\n' by {
        assert(line.contains(line[j]));
    }
    text::lemma_first_of_unique(a, '\n', n);
    text::lemma_first_of(a, '\n');
    assert(a[n] == '\n');
    assert(a.take(n) =~= line);
    assert(a.skip(n + 1) =~= rest);
    assert(b[n] == '\r' && b[n + 1] == '\n');
    assert forall|j: int| 0 <= j < n + 1 implies b[j] != '\n' by {
        if j < n {
            assert(b[j] == line[j]);
        }
    }
    text::lemma_first_of_unique(b, '\n', n + 1);
    text::lemma_first_of(b, '\n');
    assert(b.take(n + 1).drop_last() =~= line);
    assert(b.skip(n + 2) =~= rest);
}

/// A section goes from its header to the next one, or to the end of the page; what
/// stands before the first header belongs to none.
pub proof fn sections_go_from_header_to_header(
    before: Seq<Seq<char>>,
    header: Seq<char>,
    body: Seq<Seq<char>>,
    rest: Seq<Seq<char>>,
)
    requires
        forall|i: int|
            0 <= i < before.len() ==> !"## `arkel"@.is_prefix_of(#[trigger] before[i]),
        "## `arkel"@.is_prefix_of(header),
        forall|i: int| 0 <= i < body.len() ==> !"## `arkel"@.is_prefix_of(#[trigger] body[i]),
        rest.len() > 0 ==> "## `arkel"@.is_prefix_of(rest[0]),
    ensures
        docs::sections_of(before + seq![header] + body + rest) == seq![
            (header, text::trimmed(text::joined(body, "\n"@))),
        ] + docs::sections_of(rest),
        docs::sections_of(before) == Seq::<(Seq<char>, Seq<char>)>::empty(),
{
    let all = before + seq![header] + body + rest;
    let n = before.len() as int;
    assert forall|j: int| 0 <= j < n implies !docs::is_header(#[trigger] all[j]) by {
        assert(all[j] == before[j]);
    }
    assert(all[n] == header);
    lemma_first_header(all, n);
    let tail = all.skip(n + 1);
    assert(tail =~= body + rest);
    let k = body.len() as int;
    assert forall|j: int| 0 <= j < k implies !docs::is_header(#[trigger] tail[j]) by {
        assert(tail[j] == body[j]);
    }
    if rest.len() > 0 {
        assert(tail[k] == rest[0]);
    }
    lemma_first_header(tail, k);
    assert(tail.take(k) =~= body);
    assert(tail.skip(k) =~= rest);
    assert forall|j: int| 0 <= j < n implies !docs::is_header(#[trigger] before[j]) by {}
    lemma_first_header(before, n);
}

proof fn lemma_first_header(lines: Seq<Seq<char>>, i: int)
    requires
        0 <= i <= lines.len(),
        forall|j: int| 0 <= j < i ==> !docs::is_header(#[trigger] lines[j]),
        i < lines.len() ==> docs::is_header(lines[i]),
    ensures
        docs::first_header(lines) == i,
    decreases i,
{
    if i > 0 {
        assert(!docs::is_header(lines[0]));
        let t = lines.skip(1);
        assert forall|j: int| 0 <= j < i - 1 implies !docs::is_header(#[trigger] t[j]) by {
            assert(t[j] == lines[j + 1]);
        }
        lemma_first_header(t, i - 1);
    }
}

/// A section is about the command whose name stands behind that of the program.
pub proof fn headers_name_their_command(word: Seq<char>, more: Seq<char>, header: &str, r: String)
    requires
        call_ensures(docs::top_level, (header,), r),
        word.len() > 0,
        forall|i: int|
            0 <= i < word.len() ==> !text::is_space(#[trigger] word[i]) && word[i] != '`',
        more.len() > 0,
        more[0] == '`' || more[0] == ' ',
        !text::is_space(more[more.len() - 1]),
        header@ == "## `arkel "@ + word + more,
    ensures
        r@ == word,
{
    reveal_strlit("## `arkel ");
    reveal_strlit("## `arkel");
    let rest = seq![' '] + word + more;
    assert("## `arkel "@ =~= "## `arkel"@ + seq![' ']);
    assert(header@.skip("## `arkel"@.len() as int) =~= rest);
    assert(header@.subrange(0, "## `arkel"@.len() as int) =~= "## `arkel"@);
    let words = word + more;
    assert(text::trim_start(rest) == words) by {
        assert(rest[0] == ' ');
        assert(rest.skip(1) =~= words);
        assert(words[0] == word[0]);
        assert(text::trim_start(words) == words);
    }
    assert(words.last() == more[more.len() - 1]);
    assert(text::trim_end(words) == words);
    lemma_first_word(words, word.len() as int);
    assert(words.take(word.len() as int) =~= word);
    assert(!text::is_space(word[0]) && !text::is_space(word[word.len() - 1]));
    settings::plain_texts_are_not_trimmed(word);
}

proof fn lemma_first_word(s: Seq<char>, i: int)
    requires
        0 <= i < s.len(),
        forall|j: int| 0 <= j < i ==> !text::is_space(#[trigger] s[j]) && s[j] != '`',
        s[i] == '`' || s[i] == ' ',
    ensures
        docs::first_word(s) == s.take(i),
    decreases i,
{
    if i > 0 {
        let t = s.skip(1);
        assert(!text::is_space(s[0]));
        assert forall|j: int| 0 <= j < i - 1 implies !text::is_space(#[trigger] t[j]) && t[j]
            != '`' by {
            assert(t[j] == s[j + 1]);
        }
        lemma_first_word(t, i - 1);
        assert(seq![s[0]] + t.take(i - 1) =~= s.take(i));
    } else {
        assert(s.take(0) =~= seq![]);
    }
}

/// A command in a list becomes a link to its section; options and other lines stay.
pub proof fn listed_commands_become_links(name: Seq<char>, tail: Seq<char>, line: Seq<char>)
    requires
        !name.contains('`'),
    ensures
        !"--"@.is_prefix_of(name) ==> docs::linked_line("* `"@ + name + "`"@ + tail) == "* [`"@
            + name + "`](#arkel-"@ + name + ")"@ + tail,
        "--"@.is_prefix_of(name) ==> docs::linked_line("* `"@ + name + "`"@ + tail) == "* `"@ + name
            + "`"@ + tail,
        line.len() > 0 && !text::is_space(line[0]) && !"* `"@.is_prefix_of(line)
            ==> docs::linked_line(line) == line,
{
    reveal_strlit("* `");
    reveal_strlit("`");
    assert("`"@ =~= seq!['`']);
    let given = "* `"@ + name + "`"@ + tail;
    assert(given[0] == '*');
    assert(text::trim_start(given) == given);
    assert(given.skip("* `"@.len() as int) =~= name + seq!['`'] + tail);
    assert(given.subrange(0, "* `"@.len() as int) =~= "* `"@);
    text::lemma_split_once(name, '`', tail);
}

/// The commands that belong to each role, and the headings of the roles.
pub proof fn roles_have_their_commands(command: Seq<char>)
    ensures
        Role::User.has(command) <==> command == "client"@ || command == "account"@,
        Role::StorageOperator.has(command) <==> command == "storage"@,
        Role::NetworkOperator.has(command) <==> command == "payment"@ || command == "repair"@,
        Role::User.heading() == "Using Arkel"@,
        Role::StorageOperator.heading() == "Running a storage node"@,
        Role::NetworkOperator.heading() == "Operating the network"@,
{
}

/// The part for a role holds, in their order, the sections of its commands, each one
/// heading lower, and nothing else.
pub proof fn parts_hold_their_sections(
    role: Role,
    a: Seq<(Seq<char>, Seq<char>)>,
    b: Seq<(Seq<char>, Seq<char>)>,
    header: Seq<char>,
    body: Seq<char>,
)
    ensures
        docs::role_part(role, a) == "## "@ + role.heading() + "\n\n"@ + docs::role_sections(
            role,
            a,
        ),
        docs::role_sections(role, Seq::empty()) == Seq::<char>::empty(),
        docs::role_sections(role, a + b) == docs::role_sections(role, a) + docs::role_sections(
            role,
            b,
        ),
        docs::role_sections(role, seq![(header, body)]) == (if header != "## `arkel`"@
            && role.has(docs::command_of(header)) {
            "### "@ + header.skip(3) + "\n"@ + body + "\n\n"@
        } else {
            Seq::empty()
        }),
    decreases b.len(),
{
    if b.len() == 0 {
        assert(a + b =~= a);
        assert(docs::role_sections(role, a) + Seq::<char>::empty() =~= docs::role_sections(role, a));
    } else {
        parts_hold_their_sections(role, a, b.drop_last(), header, body);
        assert((a + b).drop_last() =~= a + b.drop_last());
        assert((a + b).last() == b.last());
        if !docs::is_root(b.last().0) && role.has(docs::command_of(b.last().0)) {
            let x = docs::role_sections(role, a);
            let y = docs::role_sections(role, b.drop_last());
            let z = docs::demoted(b.last());
            assert(x + y + z =~= x + (y + z));
        }
    }
    let one = seq![(header, body)];
    assert(one.drop_last() =~= Seq::<(Seq<char>, Seq<char>)>::empty());
    assert(one.last() == (header, body));
    let none = docs::role_sections(role, Seq::<(Seq<char>, Seq<char>)>::empty());
    assert(none =~= Seq::<char>::empty());
    assert(none + docs::demoted((header, body)) =~= docs::demoted((header, body)));
}

/// The page is the overview of the program's own section, and then the parts of the
/// three roles in their order.
pub proof fn pages_have_an_overview_and_three_parts(md: &str, r: String, body: Seq<char>)
    requires
        call_ensures(docs::regroup, (md,), r),
    ensures
        ({
            let secs = docs::sections_of(docs::lines_of(md@));
            r@ == docs::overviews(secs) + docs::role_part(Role::User, secs) + docs::role_part(
                Role::StorageOperator,
                secs,
            ) + docs::role_part(Role::NetworkOperator, secs)
        }),
        docs::overviews(seq![("## `arkel`"@, body)]) == "## Overview\n\n"@
            + "###### **Index:**\n\n"@ + "* ["@ + "Using Arkel"@ + "](#"@ + "using-arkel"@ + ")\n"@
            + "* ["@ + "Running a storage node"@ + "](#"@ + "running-a-storage-node"@ + ")\n"@
            + "* ["@ + "Operating the network"@ + "](#"@ + "operating-the-network"@ + ")\n"@
            + "\n"@ + docs::linked(body) + "\n\n"@,
{
    let one = seq![("## `arkel`"@, body)];
    let none = docs::overviews(Seq::<(Seq<char>, Seq<char>)>::empty());
    assert(one.drop_last() =~= Seq::<(Seq<char>, Seq<char>)>::empty());
    assert(none =~= Seq::<char>::empty());
    reveal_strlit("Using Arkel");
    reveal_strlit("using-arkel");
    reveal_strlit("Running a storage node");
    reveal_strlit("running-a-storage-node");
    reveal_strlit("Operating the network");
    reveal_strlit("operating-the-network");
    assert(docs::anchor_of("Using Arkel"@) =~= "using-arkel"@);
    assert(docs::anchor_of("Running a storage node"@) =~= "running-a-storage-node"@);
    assert(docs::anchor_of("Operating the network"@) =~= "operating-the-network"@);
    assert(docs::overviews(one) =~= docs::overview(body));
    assert(docs::overview(body) =~= "## Overview\n\n"@ + "###### **Index:**\n\n"@ + "* ["@
        + "Using Arkel"@ + "](#"@ + "using-arkel"@ + ")\n"@ + "* ["@ + "Running a storage node"@
        + "](#"@ + "running-a-storage-node"@ + ")\n"@ + "* ["@ + "Operating the network"@ + "](#"@
        + "operating-the-network"@ + ")\n"@ + "\n"@ + docs::linked(body) + "\n\n"@);
}

/// Sections other than the program's own add nothing to the overview.
pub proof fn overviews_come_of_the_program_alone(
    a: Seq<(Seq<char>, Seq<char>)>,
    b: Seq<(Seq<char>, Seq<char>)>,
    header: Seq<char>,
    body: Seq<char>,
)
    ensures
        docs::overviews(a + b) == docs::overviews(a) + docs::overviews(b),
        header != "## `arkel`"@ ==> docs::overviews(seq![(header, body)]) == Seq::<char>::empty(),
    decreases b.len(),
{
    if b.len() == 0 {
        assert(a + b =~= a);
        assert(docs::overviews(a) + Seq::<char>::empty() =~= docs::overviews(a));
    } else {
        overviews_come_of_the_program_alone(a, b.drop_last(), header, body);
        assert((a + b).drop_last() =~= a + b.drop_last());
        assert((a + b).last() == b.last());
        if docs::is_root(b.last().0) {
            let x = docs::overviews(a);
            let y = docs::overviews(b.drop_last());
            let z = docs::overview(b.last().1);
            assert(x + y + z =~= x + (y + z));
        }
    }
    let one = seq![(header, body)];
    assert(one.drop_last() =~= Seq::<(Seq<char>, Seq<char>)>::empty());
    assert(docs::overviews(Seq::<(Seq<char>, Seq<char>)>::empty()) =~= Seq::<char>::empty());
}

/// The lines of a linked text are the lines of the text, each linked, with a newline
/// behind each.
pub proof fn linked_texts_keep_their_lines(line: Seq<char>, rest: Seq<char>)
    requires
        !line.contains('\n'),
        line.len() > 0 ==> line.last() != '\r',
    ensures
        docs::linked(line + seq!['\n'] + rest) == docs::linked_line(line) + "\n"@ + docs::linked(
            rest,
        ),
        docs::linked(Seq::empty()) == Seq::<char>::empty(),
{
    lines_end_at_newlines(line, rest);
    let f = |l: Seq<char>| docs::linked_line(l);
    let more = docs::lines_of(rest);
    assert((seq![line] + more).map_values(f) =~= seq![docs::linked_line(line)] + more.map_values(
        f,
    ));
    lemma_with_newlines(docs::linked_line(line), more.map_values(f));
    assert(Seq::<Seq<char>>::empty().map_values(f) =~= Seq::<Seq<char>>::empty());
    assert(docs::with_newlines(Seq::<Seq<char>>::empty()) =~= Seq::<char>::empty());
}

proof fn lemma_with_newlines(first: Seq<char>, more: Seq<Seq<char>>)
    ensures
        docs::with_newlines(seq![first] + more) == first + "\n"@ + docs::with_newlines(more),
    decreases more.len(),
{
    let all = seq![first] + more;
    if more.len() == 0 {
        assert(all =~= seq![first]);
        assert(seq![first].drop_last() =~= Seq::<Seq<char>>::empty());
        assert(docs::with_newlines(Seq::<Seq<char>>::empty()) =~= Seq::<char>::empty());
        assert(docs::with_newlines(all) =~= first + "\n"@ + docs::with_newlines(more));
    } else {
        lemma_with_newlines(first, more.drop_last());
        assert(all.drop_last() =~= seq![first] + more.drop_last());
        assert(all.last() == more.last());
        assert(docs::with_newlines(all) =~= first + "\n"@ + docs::with_newlines(more));
    }
}

} // verus!
