//! The older note store: one Markdown file per expense, named after the
//! slug of its name, holding YAML frontmatter between `---` lines and a
//! `# Name` heading. This module reads and writes the text of notes, orders
//! them as the listing does, decides which note a target names, and merges
//! an edit's fields into a note's. Reading the directory, parsing and
//! writing the YAML and touching files is the caller's part.
use vstd::prelude::*;

use crate::csv_format::first_index;
use crate::error::{err_view, ErrV, ErrorKind, StoreError};
use crate::date::Date;
use crate::expense::{clone_opt, clone_string, opt_str_view, opt_view, string_of, Interval};
use crate::legacy::{slug_spec, slugify};
use crate::text::{
    chars_of, dec, lemma_text_lt_asymmetric, lemma_text_lt_irreflexive, lemma_text_lt_total,
    lemma_text_lt_transitive, parse_usize, parse_usize_spec, push_str, string_from_slice, text_less,
    text_lt, usize_to_string,
};

verus! {

/// A note file as the caller found it: its path, its text, and whether its
/// frontmatter reads as an expense.
#[derive(Debug)]
pub struct NoteFile {
    pub path: String,
    pub content: String,
    pub fields_ok: bool,
}

pub struct NoteView {
    pub path: Seq<char>,
    pub content: Seq<char>,
    pub fields_ok: bool,
}

impl View for NoteFile {
    type V = NoteView;

    open spec fn view(&self) -> NoteView {
        NoteView { path: self.path@, content: self.content@, fields_ok: self.fields_ok }
    }
}

pub open spec fn notes_view(v: Seq<NoteFile>) -> Seq<NoteView> {
    v.map_values(|n: NoteFile| n@)
}

/// The line that opens and closes the frontmatter.
pub open spec fn rule() -> Seq<char> {
    seq!['-', '-', '-', '\n']
}

/// `pat` occurs in `s` at index `i`.
pub open spec fn occurs_at(s: Seq<char>, pat: Seq<char>, i: int) -> bool {
    0 <= i && i + pat.len() <= s.len() && s.subrange(i, i + pat.len()) == pat
}

/// The first index at or after `i` where `pat` occurs in `s` (`str::find` from `i`).
pub open spec fn find_from(s: Seq<char>, pat: Seq<char>, i: int) -> Option<int>
    decreases s.len() - i,
{
    if i < 0 || i + pat.len() > s.len() {
        None
    } else if occurs_at(s, pat, i) {
        Some(i)
    } else if pat.len() == 0 {
        None
    } else {
        find_from(s, pat, i + 1)
    }
}

/// A note split into its frontmatter and its body: it opens with `---\n`,
/// and the frontmatter runs to the next `---\n`.
pub open spec fn split_note_spec(content: Seq<char>) -> Option<(Seq<char>, Seq<char>)> {
    if content.len() >= 4 && content.take(4) == rule() {
        let rest = content.skip(4);
        match find_from(rest, rule(), 0) {
            Some(e) => Some((rest.take(e), rest.skip(e + 4))),
            None => None,
        }
    } else {
        None
    }
}

/// The index where the rule occurs in `v` at or after `from`.
fn find_rule(v: &Vec<char>, from: usize) -> (r: Option<usize>)
    requires
        from <= v@.len(),
    ensures
        match r {
            Some(i) => find_from(v@, rule(), from as int) == Some(i as int),
            None => find_from(v@, rule(), from as int) is None,
        },
        r matches Some(i) ==> from <= i && i + 4 <= v@.len(),
    decreases v@.len() - from,
{
    if v.len() - from < 4 {
        return None;
    }
    if v[from] == '-' && v[from + 1] == '-' && v[from + 2] == '-' && v[from + 3] == '\n' {
        assert(v@.subrange(from as int, from + 4) =~= rule());
        Some(from)
    } else {
        assert(!occurs_at(v@, rule(), from as int)) by {
            if occurs_at(v@, rule(), from as int) {
                assert(v@.subrange(from as int, from + 4)[0] == v@[from as int]);
                assert(v@.subrange(from as int, from + 4)[1] == v@[from + 1]);
                assert(v@.subrange(from as int, from + 4)[2] == v@[from + 2]);
                assert(v@.subrange(from as int, from + 4)[3] == v@[from + 3]);
            }
        }
        find_rule(v, from + 1)
    }
}

/// The frontmatter and the body of a note, when it has them.
pub fn split_note(content: &str) -> (r: Option<(String, String)>)
    ensures
        match r {
            Some((fm, body)) => split_note_spec(content@) == Some((fm@, body@)),
            None => split_note_spec(content@) is None,
        },
{
    let v = chars_of(content);
    if v.len() < 4 || !(v[0] == '-' && v[1] == '-' && v[2] == '-' && v[3] == '\n') {
        proof {
            if content@.len() >= 4 && content@.take(4) == rule() {
                assert(content@.take(4)[0] == v@[0]);
                assert(content@.take(4)[1] == v@[1]);
                assert(content@.take(4)[2] == v@[2]);
                assert(content@.take(4)[3] == v@[3]);
            }
        }
        return None;
    }
    assert(content@.take(4) =~= rule());
    let rest_s = string_from_slice(v.as_slice(), 4, v.len());
    let rest = chars_of(rest_s.as_str());
    assert(rest@ =~= content@.skip(4));
    match find_rule(&rest, 0) {
        None => None,
        Some(e) => {
            let fm = string_from_slice(rest.as_slice(), 0, e);
            let body = string_from_slice(rest.as_slice(), e + 4, rest.len());
            assert(fm@ =~= rest@.take(e as int));
            assert(body@ =~= rest@.skip(e + 4));
            Some((fm, body))
        },
    }
}

/// Where the first line of `s` ends: its first `\n`, or the end of `s`.
pub open spec fn line_end(s: Seq<char>) -> int {
    first_index(s, '\n', '\n')
}

/// The first line of `s`, as `str::lines` yields it: up to the first `\n`,
/// without a `\r` just before that `\n`.
pub open spec fn first_line(s: Seq<char>) -> Seq<char> {
    let e = line_end(s);
    let l = s.take(e);
    if e < s.len() && l.len() > 0 && l.last() == '\r' {
        l.drop_last()
    } else {
        l
    }
}

/// The name a note's body gives: the rest of its first line that starts
/// with `# `.
pub open spec fn heading_spec(s: Seq<char>) -> Option<Seq<char>>
    decreases s.len(),
{
    if s.len() == 0 {
        None
    } else {
        let l = first_line(s);
        if l.len() >= 2 && l[0] == '#' && l[1] == ' ' {
            Some(l.skip(2))
        } else if line_end(s) < s.len() {
            proof {
                lemma_line_end_bound(s);
            }
            heading_spec(s.skip(line_end(s) + 1))
        } else {
            None
        }
    }
}

pub proof fn lemma_line_end_bound(s: Seq<char>)
    ensures
        0 <= line_end(s) <= s.len(),
        line_end(s) < s.len() ==> s[line_end(s)] == '\n',
        forall|k: int| 0 <= k < line_end(s) ==> s[k] != '\n',
    decreases s.len(),
{
    if s.len() > 0 {
        lemma_line_end_bound(s.drop_last());
        assert forall|k: int| 0 <= k < line_end(s) implies s[k] != '\n' by {
            if k < s.len() - 1 {
                assert(s.drop_last()[k] == s[k]);
            }
        }
    }
}

/// The name that the heading of `body` gives, when it has one.
pub fn heading(body: &str) -> (r: Option<String>)
    ensures
        match r {
            Some(n) => heading_spec(body@) == Some(n@),
            None => heading_spec(body@) is None,
        },
{
    let v = chars_of(body);
    let mut i: usize = 0;
    assert(v@.skip(0) =~= v@);
    while i < v.len()
        invariant
            v@ == body@,
            i <= v@.len(),
            heading_spec(body@) == heading_spec(v@.skip(i as int)),
        decreases v@.len() - i,
    {
        let ghost s = v@.skip(i as int);
        let j = crate::legacy::find_char(&v, i, '\n');
        proof {
            lemma_line_end_bound(s);
        }
        assert(j - i == line_end(s));
        let mut k = j;
        if j < v.len() && j > i && v[j - 1] == '\r' {
            k = j - 1;
        }
        assert(v@.subrange(i as int, k as int) =~= first_line(s));
        if k - i >= 2 && v[i] == '#' && v[i + 1] == ' ' {
            let name = string_from_slice(v.as_slice(), i + 2, k);
            assert(name@ =~= first_line(s).skip(2));
            return Some(name);
        }
        if j >= v.len() {
            return None;
        }
        assert(s.skip(line_end(s) + 1) =~= v@.skip(j + 1));
        i = j + 1;
    }
    None
}

/// The name a note file gives its expense: its heading, when the note has
/// frontmatter that reads as an expense.
pub open spec fn note_name_spec(n: NoteView) -> Option<Seq<char>> {
    match split_note_spec(n.content) {
        Some((_, body)) => if n.fields_ok {
            heading_spec(body)
        } else {
            None
        },
        None => None,
    }
}

/// The name a note file gives its expense, when it reads.
pub fn note_name(n: &NoteFile) -> (r: Option<String>)
    ensures
        match r {
            Some(s) => note_name_spec(n@) == Some(s@),
            None => note_name_spec(n@) is None,
        },
{
    match split_note(n.content.as_str()) {
        None => None,
        Some((_, body)) => if n.fields_ok {
            heading(body.as_str())
        } else {
            None
        },
    }
}

/// The note at `x` reads (has a name).
pub open spec fn listed(ns: Seq<NoteView>, x: int) -> bool {
    0 <= x < ns.len() && note_name_spec(ns[x]) is Some
}

/// Note `a` is listed before note `b`: by name as `String`'s order sorts
/// (code point by code point), the order the files were found deciding
/// between equal names.
pub open spec fn note_before(ns: Seq<NoteView>, a: int, b: int) -> bool {
    let na = note_name_spec(ns[a])->Some_0;
    let nb = note_name_spec(ns[b])->Some_0;
    text_lt(na, nb) || (na == nb && a < b)
}

/// `order` lists each note that reads once, in listing order.
pub open spec fn entry_order(ns: Seq<NoteView>, order: Seq<usize>) -> bool {
    &&& forall|a: int, b: int|
        0 <= a < b < order.len() ==> note_before(ns, #[trigger] order[a] as int, #[trigger] order[b] as int)
    &&& forall|x: usize| order.contains(x) <==> listed(ns, x as int)
}

proof fn lemma_note_before_strict(ns: Seq<NoteView>, a: int, b: int)
    ensures
        !note_before(ns, a, a),
        note_before(ns, a, b) ==> !note_before(ns, b, a),
{
    let na = note_name_spec(ns[a])->Some_0;
    let nb = note_name_spec(ns[b])->Some_0;
    lemma_text_lt_irreflexive(na);
    lemma_text_lt_irreflexive(nb);
    if text_lt(na, nb) {
        lemma_text_lt_asymmetric(na, nb);
    }
}

proof fn lemma_sorted_unique(ns: Seq<NoteView>, o1: Seq<usize>, o2: Seq<usize>)
    requires
        forall|a: int, b: int| 0 <= a < b < o1.len() ==> note_before(ns, #[trigger] o1[a] as int, #[trigger] o1[b] as int),
        forall|a: int, b: int| 0 <= a < b < o2.len() ==> note_before(ns, #[trigger] o2[a] as int, #[trigger] o2[b] as int),
        forall|x: usize| o1.contains(x) <==> o2.contains(x),
    ensures
        o1 == o2,
    decreases o1.len(),
{
    if o1.len() == 0 {
        if o2.len() > 0 {
            assert(o2.contains(o2[0]));
        }
        assert(o1 =~= o2);
    } else {
        assert(o1.contains(o1[0]));
        assert(o2.len() > 0);
        assert(o2.contains(o2[0]));
        let j = choose|j: int| 0 <= j < o2.len() && o2[j] == o1[0];
        let i = choose|i: int| 0 <= i < o1.len() && o1[i] == o2[0];
        if o1[0] != o2[0] {
            assert(note_before(ns, o2[0] as int, o2[j] as int));
            assert(note_before(ns, o1[0] as int, o1[i] as int));
            lemma_note_before_strict(ns, o1[0] as int, o2[0] as int);
        }
        let t1 = o1.drop_first();
        let t2 = o2.drop_first();
        assert forall|x: usize| t1.contains(x) <==> t2.contains(x) by {
            if t1.contains(x) {
                let k = choose|k: int| 0 <= k < t1.len() && t1[k] == x;
                assert(o1[k + 1] == x);
                assert(o1.contains(x));
                lemma_note_before_strict(ns, o1[0] as int, x as int);
                assert(note_before(ns, o1[0] as int, o1[k + 1] as int));
                let m = choose|m: int| 0 <= m < o2.len() && o2[m] == x;
                assert(m != 0);
                assert(t2[m - 1] == x);
            }
            if t2.contains(x) {
                let k = choose|k: int| 0 <= k < t2.len() && t2[k] == x;
                assert(o2[k + 1] == x);
                assert(o2.contains(x));
                lemma_note_before_strict(ns, o2[0] as int, x as int);
                assert(note_before(ns, o2[0] as int, o2[k + 1] as int));
                let m = choose|m: int| 0 <= m < o1.len() && o1[m] == x;
                assert(m != 0);
                assert(t1[m - 1] == x);
            }
        }
        assert forall|a: int, b: int| 0 <= a < b < t1.len() implies note_before(ns, #[trigger] t1[a] as int, #[trigger] t1[b] as int) by {
            assert(t1[a] == o1[a + 1] && t1[b] == o1[b + 1]);
        }
        assert forall|a: int, b: int| 0 <= a < b < t2.len() implies note_before(ns, #[trigger] t2[a] as int, #[trigger] t2[b] as int) by {
            assert(t2[a] == o2[a + 1] && t2[b] == o2[b + 1]);
        }
        lemma_sorted_unique(ns, t1, t2);
        assert(o1 =~= seq![o1[0]] + t1);
        assert(o2 =~= seq![o2[0]] + t2);
    }
}

/// The listing order is determined by the notes: two orders that each list
/// every readable note once, by name and then file order, are the same.
pub proof fn lemma_entry_order_unique(ns: Seq<NoteView>, o1: Seq<usize>, o2: Seq<usize>)
    requires
        entry_order(ns, o1),
        entry_order(ns, o2),
    ensures
        o1 == o2,
{
    lemma_sorted_unique(ns, o1, o2);
}

/// `name` sorts strictly before the name `other` holds.
fn name_sorts_before(name: &String, other: &Option<String>) -> (r: bool)
    ensures
        r == match other {
            Some(o) => text_lt(name@, o@),
            None => false,
        },
{
    match other {
        Some(o) => text_less(name.as_str(), o.as_str()),
        None => false,
    }
}

/// The readable notes in listing order, as indices into `notes`.
pub fn list_order(notes: &Vec<NoteFile>) -> (r: Vec<usize>)
    ensures
        entry_order(notes_view(notes@), r@),
{
    let ghost ns = notes_view(notes@);
    let mut names: Vec<Option<String>> = Vec::new();
    let mut i: usize = 0;
    while i < notes.len()
        invariant
            ns == notes_view(notes@),
            i <= notes@.len(),
            names@.len() == i,
            forall|k: int| 0 <= k < i ==> match #[trigger] names@[k] {
                Some(s) => note_name_spec(ns[k]) == Some(s@),
                None => note_name_spec(ns[k]) is None,
            },
        decreases notes@.len() - i,
    {
        names.push(note_name(&notes[i]));
        i = i + 1;
    }
    let mut order: Vec<usize> = Vec::new();
    let mut x: usize = 0;
    while x < notes.len()
        invariant
            ns == notes_view(notes@),
            names@.len() == notes@.len(),
            forall|k: int| 0 <= k < notes@.len() ==> match #[trigger] names@[k] {
                Some(s) => note_name_spec(ns[k]) == Some(s@),
                None => note_name_spec(ns[k]) is None,
            },
            x <= notes@.len(),
            forall|a: int, b: int| 0 <= a < b < order@.len() ==> note_before(ns, #[trigger] order@[a] as int, #[trigger] order@[b] as int),
            forall|y: usize| #[trigger] order@.contains(y) <==> (y < x && listed(ns, y as int)),
        decreases notes@.len() - x,
    {
        match &names[x] {
            None => {
                proof {
                    assert(names@[x as int] is None);
                    assert(note_name_spec(ns[x as int]) is None);
                    assert forall|y: usize| #[trigger] order@.contains(y) <==> (y < x + 1 && listed(ns, y as int)) by {
                        if y == x {
                            assert(!listed(ns, y as int));
                        }
                    }
                }
            },
            Some(nx) => {
                proof {
                    assert forall|k: int| 0 <= k < order@.len() implies (#[trigger] order@[k]) < x && listed(ns, order@[k] as int) by {
                        assert(order@.contains(order@[k]));
                    }
                }
                let mut p: usize = 0;
                while p < order.len() && !name_sorts_before(nx, &names[order[p]])
                    invariant
                        ns == notes_view(notes@),
                        names@.len() == notes@.len(),
                        forall|k: int| 0 <= k < notes@.len() ==> match #[trigger] names@[k] {
                            Some(s) => note_name_spec(ns[k]) == Some(s@),
                            None => note_name_spec(ns[k]) is None,
                        },
                        x < notes@.len(),
                        names@[x as int] == Some(*nx),
                        forall|k: int| 0 <= k < order@.len() ==> (#[trigger] order@[k]) < x && listed(ns, order@[k] as int),
                        p <= order@.len(),
                        forall|q: int| 0 <= q < p ==> !note_before(ns, x as int, #[trigger] order@[q] as int),
                    decreases order@.len() - p,
                {
                    assert(names@[order@[p as int] as int] is Some);
                    p = p + 1;
                }
                let ghost old_order = order@;
                proof {
                    assert forall|q: int| 0 <= q < old_order.len() implies
                        #[trigger] note_before(ns, old_order[q] as int, x as int) == (q < p) by {
                        lemma_note_before_strict(ns, x as int, old_order[q] as int);
                        let na = note_name_spec(ns[old_order[q] as int])->Some_0;
                        lemma_text_lt_total(na, nx@);
                        if q >= p {
                            if p < q {
                                assert(note_before(ns, old_order[p as int] as int, old_order[q] as int));
                                let np = note_name_spec(ns[old_order[p as int] as int])->Some_0;
                                assert(names@[old_order[p as int] as int] is Some);
                                if text_lt(nx@, np) {
                                    if text_lt(np, na) {
                                        lemma_text_lt_transitive(nx@, np, na);
                                    }
                                }
                                if text_lt(na, nx@) {
                                    lemma_text_lt_asymmetric(na, nx@);
                                }
                            } else {
                                assert(names@[old_order[p as int] as int] is Some);
                            }
                            if text_lt(na, nx@) {
                                lemma_text_lt_asymmetric(na, nx@);
                            }
                            lemma_text_lt_irreflexive(na);
                        }
                    }
                }
                order.insert(p, x);
                proof {
                    old_order.insert_ensures(p as int, x);
                    assert forall|a: int, b: int| 0 <= a < b < order@.len() implies note_before(ns, #[trigger] order@[a] as int, #[trigger] order@[b] as int) by {
                        if a < p {
                            assert(order@[a] == old_order[a]);
                            if b == p {
                                assert(note_before(ns, old_order[a] as int, x as int));
                            } else if b < p {
                                assert(order@[b] == old_order[b]);
                            } else {
                                assert(order@[b] == old_order[b - 1]);
                            }
                        } else if a == p {
                            assert(order@[b] == old_order[b - 1]);
                            assert(!note_before(ns, old_order[b - 1] as int, x as int));
                            let na = note_name_spec(ns[old_order[b - 1] as int])->Some_0;
                            lemma_text_lt_total(na, nx@);
                        } else {
                            assert(order@[a] == old_order[a - 1]);
                            assert(order@[b] == old_order[b - 1]);
                        }
                    }
                    assert forall|y: usize| #[trigger] order@.contains(y) <==> (y < x + 1 && listed(ns, y as int)) by {
                        if order@.contains(y) {
                            let q = choose|q: int| 0 <= q < order@.len() && order@[q] == y;
                            if q < p {
                                assert(old_order[q] == y);
                                assert(old_order.contains(y));
                            } else if q > p {
                                assert(old_order[q - 1] == y);
                                assert(old_order.contains(y));
                            }
                        }
                        if y < x + 1 && listed(ns, y as int) {
                            if y == x {
                                assert(order@[p as int] == y);
                            } else {
                                assert(old_order.contains(y));
                                let q = choose|q: int| 0 <= q < old_order.len() && old_order[q] == y;
                                if q < p {
                                    assert(order@[q] == y);
                                } else {
                                    assert(order@[q + 1] == y);
                                }
                            }
                        }
                    }
                }
            },
        }
        x = x + 1;
    }
    order
}

/// The file name of the note for `name`: its slug and `.md`.
pub fn note_file_name(name: &str) -> (r: String)
    ensures
        r@ == slug_spec(name@) + ".md"@,
{
    let mut s = slugify(name);
    push_str(&mut s, ".md");
    s
}

/// The text of a note: the frontmatter between `---` lines, then the name
/// as a heading.
pub open spec fn note_text_spec(frontmatter: Seq<char>, name: Seq<char>) -> Seq<char> {
    rule() + frontmatter + rule() + seq!['#', ' '] + name + seq!['\n']
}

/// The text of the note for `name` with `frontmatter` (YAML that ends in a newline).
pub fn note_text(frontmatter: &str, name: &str) -> (r: String)
    ensures
        r@ == note_text_spec(frontmatter@, name@),
{
    let mut s = String::new();
    let ghost s0 = s@;
    push_rule(&mut s);
    push_str(&mut s, frontmatter);
    push_rule(&mut s);
    crate::text::push_char(&mut s, '#');
    crate::text::push_char(&mut s, ' ');
    push_str(&mut s, name);
    crate::text::push_char(&mut s, '\n');
    assert(s@ =~= note_text_spec(frontmatter@, name@));
    s
}

fn push_rule(s: &mut String)
    ensures
        final(s)@ == old(s)@ + rule(),
{
    let ghost s0 = s@;
    crate::text::push_char(s, '-');
    crate::text::push_char(s, '-');
    crate::text::push_char(s, '-');
    crate::text::push_char(s, '\n');
    assert(s@ =~= s0 + rule());
}

/// The name an edited note is written under: the new name when there is
/// one, else the heading of its body, else nothing.
pub open spec fn display_name_spec(new_name: Option<Seq<char>>, body: Seq<char>) -> Seq<char> {
    match new_name {
        Some(n) => n,
        None => match heading_spec(body) {
            Some(h) => h,
            None => Seq::empty(),
        },
    }
}

/// The name an edited note is written under.
pub fn display_name(new_name: Option<&str>, body: &str) -> (r: String)
    ensures
        r@ == display_name_spec(
            match new_name {
                Some(n) => Some(n@),
                None => None,
            },
            body@,
        ),
{
    match new_name {
        Some(n) => string_of(n),
        None => match heading(body) {
            Some(h) => h,
            None => String::new(),
        },
    }
}

pub open spec fn opt_note_view(n: Option<&NoteFile>) -> Option<NoteView> {
    match n {
        Some(f) => Some(f@),
        None => None,
    }
}

/// The note file `target` names: `@id` counts the readable notes from 1 in
/// listing order `order`; any other target names the file of its slug,
/// `at_slug`, when there is one.
pub open spec fn resolve_spec(
    target: Seq<char>,
    ns: Seq<NoteView>,
    order: Seq<usize>,
    at_slug: Option<NoteView>,
) -> Result<NoteView, ErrV> {
    if target.len() > 0 && target[0] == '@' {
        match parse_usize_spec(target.drop_first()) {
            None => Err((ErrorKind::InvalidInput, "invalid id"@)),
            Some(id) => if id == 0 || id > order.len() {
                Err((ErrorKind::NotFound, "no expense at @"@ + dec(id as nat)))
            } else {
                Ok(ns[order[id - 1] as int])
            },
        }
    } else {
        match at_slug {
            None => Err((ErrorKind::NotFound, "expense '"@ + target + "' not found"@)),
            Some(n) => Ok(n),
        }
    }
}

/// What removing `target` gives: the path of the note to delete and the
/// name it held, or the error.
pub open spec fn remove_spec(
    target: Seq<char>,
    ns: Seq<NoteView>,
    order: Seq<usize>,
    at_slug: Option<NoteView>,
) -> Result<(Seq<char>, Seq<char>), ErrV> {
    match resolve_spec(target, ns, order, at_slug) {
        Err(e) => Err(e),
        Ok(n) => match note_name_spec(n) {
            Some(name) => Ok((n.path, name)),
            None => Err((ErrorKind::InvalidData, "could not read expense"@)),
        },
    }
}

/// The note file `target` names, as an index into `notes` or `None` for
/// `at_slug`, or the error.
fn resolve(target: &str, notes: &Vec<NoteFile>, at_slug: Option<&NoteFile>) -> (r: Result<Option<usize>, StoreError>)
    ensures
        forall|o: Seq<usize>|
            #[trigger] entry_order(notes_view(notes@), o) ==> match r {
                Ok(Some(x)) => x < notes@.len() && resolve_spec(target@, notes_view(notes@), o, opt_note_view(at_slug))
                    == Ok::<NoteView, ErrV>(notes@[x as int]@),
                Ok(None) => at_slug is Some && resolve_spec(target@, notes_view(notes@), o, opt_note_view(at_slug))
                    == Ok::<NoteView, ErrV>(opt_note_view(at_slug)->Some_0),
                Err(e) => resolve_spec(target@, notes_view(notes@), o, opt_note_view(at_slug))
                    == Err::<NoteView, ErrV>(err_view(e)),
            },
        r matches Ok(Some(x)) ==> x < notes@.len(),
        r matches Ok(None) ==> at_slug is Some,
{
    let ghost ns = notes_view(notes@);
    let cs = chars_of(target);
    if cs.len() > 0 && cs[0] == '@' {
        let id_str = string_from_slice(cs.as_slice(), 1, cs.len());
        assert(id_str@ =~= target@.drop_first());
        match parse_usize(id_str.as_str()) {
            None => Err(StoreError::new(ErrorKind::InvalidInput, string_of("invalid id"))),
            Some(id) => {
                let order = list_order(notes);
                proof {
                    assert forall|o: Seq<usize>| #[trigger] entry_order(ns, o) implies o == order@ by {
                        lemma_entry_order_unique(ns, o, order@);
                    }
                }
                if id == 0 || id > order.len() {
                    let mut m = string_of("no expense at @");
                    let ids = usize_to_string(id);
                    push_str(&mut m, ids.as_str());
                    Err(StoreError::new(ErrorKind::NotFound, m))
                } else {
                    let x = order[id - 1];
                    assert(order@.contains(x));
                    assert(ns[x as int] == notes@[x as int]@);
                    Ok(Some(x))
                }
            },
        }
    } else {
        match at_slug {
            None => {
                let mut m = string_of("expense '");
                push_str(&mut m, target);
                push_str(&mut m, "' not found");
                Err(StoreError::new(ErrorKind::NotFound, m))
            },
            Some(_) => Ok(None),
        }
    }
}

/// Which note file `target` removes, and the expense name it held: the
/// path and name, or the error. `notes` are the note files found under the
/// store's directory; `at_slug` is the file at the target's slug, when it
/// exists. Deleting the file is left to the caller.
pub fn remove(target: &str, notes: &Vec<NoteFile>, at_slug: Option<&NoteFile>) -> (r: Result<(String, String), StoreError>)
    ensures
        forall|o: Seq<usize>|
            #[trigger] entry_order(notes_view(notes@), o) ==> match r {
                Ok((p, n)) => remove_spec(target@, notes_view(notes@), o, opt_note_view(at_slug))
                    == Ok::<(Seq<char>, Seq<char>), ErrV>((p@, n@)),
                Err(e) => remove_spec(target@, notes_view(notes@), o, opt_note_view(at_slug))
                    == Err::<(Seq<char>, Seq<char>), ErrV>(err_view(e)),
            },
{
    let found = match resolve(target, notes, at_slug) {
        Err(e) => return Err(e),
        Ok(Some(x)) => &notes[x],
        Ok(None) => at_slug.unwrap(),
    };
    match note_name(found) {
        Some(name) => Ok((clone_string(&found.path), name)),
        None => Err(StoreError::new(ErrorKind::InvalidData, string_of("could not read expense"))),
    }
}

/// How to write an edited note: the file to write, whether the old file
/// goes (a rename to another slug), its current frontmatter, and the name
/// it is written under.
#[derive(Debug)]
pub struct NoteEdit {
    pub path: String,
    pub write_to: String,
    pub remove_old: bool,
    pub frontmatter: String,
    pub name: String,
}

/// What editing `target` decides, or the error: the note it names, then,
/// with a new name, the file of the new slug, which must not be another
/// existing note (`new_taken`), then the note's frontmatter and body.
pub open spec fn edit_spec(
    target: Seq<char>,
    ns: Seq<NoteView>,
    order: Seq<usize>,
    at_slug: Option<NoteView>,
    new_name: Option<Seq<char>>,
    new_taken: bool,
) -> Result<(Seq<char>, Seq<char>, bool, Seq<char>, Seq<char>), ErrV> {
    match resolve_spec(target, ns, order, at_slug) {
        Err(e) => Err(e),
        Ok(n) => {
            let new_path = match new_name {
                Some(nm) => Some(slug_spec(nm) + ".md"@),
                None => None,
            };
            if new_name is Some && new_path->Some_0 != n.path && new_taken {
                Err((ErrorKind::AlreadyExists, "expense '"@ + new_name->Some_0 + "' already exists"@))
            } else {
                match split_note_spec(n.content) {
                    None => Err((ErrorKind::InvalidData, "invalid file format"@)),
                    Some((fm, body)) => {
                        let renamed = new_name is Some && new_path->Some_0 != n.path;
                        let write_to = if renamed { new_path->Some_0 } else { n.path };
                        Ok((n.path, write_to, renamed, fm, display_name_spec(new_name, body)))
                    },
                }
            }
        },
    }
}

/// What editing the note `target` names decides: where the edited note is
/// written, whether the old file is removed, its frontmatter (which the
/// caller reads, patches and writes back) and the name it is written
/// under. `new_taken` is whether the file of `new_name`'s slug exists.
pub fn plan_note_edit(
    target: &str,
    notes: &Vec<NoteFile>,
    at_slug: Option<&NoteFile>,
    new_name: Option<&str>,
    new_taken: bool,
) -> (r: Result<NoteEdit, StoreError>)
    ensures
        forall|o: Seq<usize>|
            #[trigger] entry_order(notes_view(notes@), o) ==> match r {
                Ok(e) => edit_spec(target@, notes_view(notes@), o, opt_note_view(at_slug), opt_str_view(new_name), new_taken)
                    == Ok::<(Seq<char>, Seq<char>, bool, Seq<char>, Seq<char>), ErrV>(
                    (e.path@, e.write_to@, e.remove_old, e.frontmatter@, e.name@),
                ),
                Err(e) => edit_spec(target@, notes_view(notes@), o, opt_note_view(at_slug), opt_str_view(new_name), new_taken)
                    == Err::<(Seq<char>, Seq<char>, bool, Seq<char>, Seq<char>), ErrV>(err_view(e)),
            },
{
    let found = match resolve(target, notes, at_slug) {
        Err(e) => return Err(e),
        Ok(Some(x)) => &notes[x],
        Ok(None) => at_slug.unwrap(),
    };
    let mut renamed = false;
    let mut write_to = clone_string(&found.path);
    match new_name {
        Some(nm) => {
            let p = note_file_name(nm);
            if !crate::text::str_eq(p.as_str(), found.path.as_str()) {
                if new_taken {
                    let mut m = string_of("expense '");
                    push_str(&mut m, nm);
                    push_str(&mut m, "' already exists");
                    return Err(StoreError::new(ErrorKind::AlreadyExists, m));
                }
                renamed = true;
                write_to = p;
            }
        },
        None => {},
    }
    match split_note(found.content.as_str()) {
        None => Err(StoreError::new(ErrorKind::InvalidData, string_of("invalid file format"))),
        Some((fm, body)) => {
            let name = display_name(new_name, body.as_str());
            Ok(NoteEdit { path: clone_string(&found.path), write_to, remove_old: renamed, frontmatter: fm, name })
        },
    }
}

/// What saving a new note gives: its file name and text, or an error when
/// a note with the same slug exists already (`taken`).
pub open spec fn save_note_spec(name: Seq<char>, frontmatter: Seq<char>, taken: bool) -> Result<(Seq<char>, Seq<char>), ErrV> {
    if taken {
        Err((ErrorKind::AlreadyExists, "expense '"@ + name + "' already exists"@))
    } else {
        Ok((slug_spec(name) + ".md"@, note_text_spec(frontmatter, name)))
    }
}

/// The file name and text of a new note for `name`, unless the file of its
/// slug is `taken`.
pub fn save_note(name: &str, frontmatter: &str, taken: bool) -> (r: Result<(String, String), StoreError>)
    ensures
        match r {
            Ok((f, c)) => save_note_spec(name@, frontmatter@, taken) == Ok::<(Seq<char>, Seq<char>), ErrV>((f@, c@)),
            Err(e) => save_note_spec(name@, frontmatter@, taken) == Err::<(Seq<char>, Seq<char>), ErrV>(err_view(e)),
        },
{
    if taken {
        let mut m = string_of("expense '");
        push_str(&mut m, name);
        push_str(&mut m, "' already exists");
        Err(StoreError::new(ErrorKind::AlreadyExists, m))
    } else {
        Ok((note_file_name(name), note_text(frontmatter, name)))
    }
}

proof fn lemma_find_none(s: Seq<char>, pat: Seq<char>, i: int, j: int)
    requires
        0 <= i <= j,
        find_from(s, pat, i) is None,
    ensures
        !occurs_at(s, pat, j),
    decreases j - i,
{
    if i + pat.len() <= s.len() {
        if pat.len() == 0 {
            assert(s.subrange(i, i) =~= pat);
        } else if i < j {
            lemma_find_none(s, pat, i + 1, j);
        }
    }
}

proof fn lemma_find_at_rule(fm: Seq<char>, rest: Seq<char>, i: int)
    requires
        0 <= i <= fm.len(),
        forall|j: int| 0 <= j ==> !occurs_at(fm, rule(), j),
    ensures
        find_from(fm + rule() + rest, rule(), i) == Some(fm.len() as int),
    decreases fm.len() - i,
{
    let s = fm + rule() + rest;
    if i == fm.len() {
        assert(s.subrange(i, i + 4) =~= rule());
    } else {
        assert(!occurs_at(s, rule(), i)) by {
            if occurs_at(s, rule(), i) {
                if i + 4 <= fm.len() {
                    assert(fm.subrange(i, i + 4) =~= s.subrange(i, i + 4));
                    assert(occurs_at(fm, rule(), i));
                } else {
                    let fr = fm + rule();
                    assert(s == fr + rest);
                    assert(s[i + 3] == fr[i + 3]);
                    assert(fr[i + 3] == rule()[i + 3 - fm.len()]);
                    assert(s.subrange(i, i + 4)[3] == s[i + 3]);
                    assert(rule()[3] == '\n');
                }
            }
        }
        lemma_find_at_rule(fm, rest, i + 1);
    }
}

/// A note written by `note_text` reads back: its frontmatter is the one
/// written and its body's heading gives the name, when `---` and a line
/// break never follow each other in the frontmatter, and the name holds no
/// line break and does not end in `\r`.
pub proof fn note_reads_back(fm: Seq<char>, name: Seq<char>)
    requires
        find_from(fm, rule(), 0) is None,
        forall|k: int| 0 <= k < name.len() ==> name[k] != '\n',
        name.len() > 0 ==> name.last() != '\r',
    ensures
        split_note_spec(note_text_spec(fm, name)) == Some((fm, seq!['#', ' '] + name + seq!['\n'])),
        heading_spec(seq!['#', ' '] + name + seq!['\n']) == Some(name),
{
    let body = seq!['#', ' '] + name + seq!['\n'];
    let content = note_text_spec(fm, name);
    assert(content =~= rule() + (fm + rule() + body));
    assert(content.take(4) =~= rule());
    assert(content.skip(4) =~= fm + rule() + body);
    assert forall|j: int| 0 <= j implies !occurs_at(fm, rule(), j) by {
        lemma_find_none(fm, rule(), 0, j);
    }
    lemma_find_at_rule(fm, body, 0);
    let rest = fm + rule() + body;
    assert(rest.take(fm.len() as int) =~= fm);
    assert(rest.skip(fm.len() as int + 4) =~= body);
    let e: int = name.len() as int + 2;
    assert forall|k: int| 0 <= k < e implies body[k] != '\n' by {
        if k >= 2 {
            assert(body[k] == name[k - 2]);
        }
    }
    crate::csv_format::lemma_first_index_found(body, '\n', '\n', e);
    assert(body.take(e) =~= seq!['#', ' '] + name);
    assert(body.take(e).skip(2) =~= name);
}

/// The fields of a note's frontmatter, as plain values: the amount as the
/// text of its number, the currency code, the tags, the first payment date
/// and the interval.
#[derive(Debug)]
pub struct NoteFields {
    pub amount: Option<String>,
    pub currency: Option<String>,
    pub tags: Option<Vec<String>>,
    pub first_payment_date: Option<Date>,
    pub interval: Option<Interval>,
}

pub struct NoteFieldsView {
    pub amount: Option<Seq<char>>,
    pub currency: Option<Seq<char>>,
    pub tags: Option<Seq<Seq<char>>>,
    pub first_payment_date: Option<Date>,
    pub interval: Option<Interval>,
}

pub open spec fn tags_view(t: Option<Vec<String>>) -> Option<Seq<Seq<char>>> {
    match t {
        Some(v) => Some(v@.map_values(|s: String| s@)),
        None => None,
    }
}

impl View for NoteFields {
    type V = NoteFieldsView;

    open spec fn view(&self) -> NoteFieldsView {
        NoteFieldsView {
            amount: opt_view(self.amount),
            currency: opt_view(self.currency),
            tags: tags_view(self.tags),
            first_payment_date: self.first_payment_date,
            interval: self.interval,
        }
    }
}

pub open spec fn or_else<T>(patch: Option<T>, existing: Option<T>) -> Option<T> {
    match patch {
        Some(x) => Some(x),
        None => existing,
    }
}

/// An edited note's fields: each field the patch sets, else the note's own.
pub open spec fn merged_fields(patch: NoteFieldsView, existing: NoteFieldsView) -> NoteFieldsView {
    NoteFieldsView {
        amount: or_else(patch.amount, existing.amount),
        currency: or_else(patch.currency, existing.currency),
        tags: or_else(patch.tags, existing.tags),
        first_payment_date: or_else(patch.first_payment_date, existing.first_payment_date),
        interval: or_else(patch.interval, existing.interval),
    }
}

fn clone_tags(t: &Option<Vec<String>>) -> (r: Option<Vec<String>>)
    ensures
        tags_view(r) == tags_view(*t),
{
    match t {
        None => None,
        Some(v) => {
            let mut out: Vec<String> = Vec::new();
            let mut i: usize = 0;
            while i < v.len()
                invariant
                    i <= v@.len(),
                    out@.len() == i,
                    forall|k: int| 0 <= k < i ==> (#[trigger] out@[k])@ == v@[k]@,
                decreases v@.len() - i,
            {
                out.push(clone_string(&v[i]));
                i = i + 1;
            }
            assert(out@.map_values(|s: String| s@) =~= v@.map_values(|s: String| s@));
            Some(out)
        },
    }
}

/// The fields an edit writes back: those the patch sets replace the note's,
/// the others stay.
pub fn merge_note_fields(patch: &NoteFields, existing: &NoteFields) -> (r: NoteFields)
    ensures
        r@ == merged_fields(patch@, existing@),
{
    NoteFields {
        amount: if patch.amount.is_some() { clone_opt(&patch.amount) } else { clone_opt(&existing.amount) },
        currency: if patch.currency.is_some() { clone_opt(&patch.currency) } else { clone_opt(&existing.currency) },
        tags: if patch.tags.is_some() { clone_tags(&patch.tags) } else { clone_tags(&existing.tags) },
        first_payment_date: if patch.first_payment_date.is_some() {
            patch.first_payment_date
        } else {
            existing.first_payment_date
        },
        interval: if patch.interval.is_some() { patch.interval } else { existing.interval },
    }
}

} // verus!
