//! Rendering of class names as empty CSS rules.

use crate::tree::strings_view;
use vstd::prelude::*;

verus! {

/// The empty rule for one class: `.` and the name verbatim, then ` {`, a
/// line break, `}` and a line break.
pub open spec fn rule_of(name: Seq<char>) -> Seq<char> {
    seq!['.'] + name + seq![' ', '{', '\n', '}', '\n']
}

/// The rules of each name of `names`, one after the other, in order.
pub open spec fn css_of(names: Seq<Seq<char>>) -> Seq<char>
    decreases names.len(),
{
    if names.len() == 0 {
        Seq::empty()
    } else {
        css_of(names.drop_last()) + rule_of(names.last())
    }
}

/// One empty rule for each class name, in the order given.
pub fn generate_css(classnames: Vec<String>) -> (css: String)
    ensures
        css@ == css_of(strings_view(classnames@)),
{
    let ghost s = strings_view(classnames@);
    let mut css = String::new();
    let mut i: usize = 0;
    while i < classnames.len()
        invariant
            i <= classnames.len(),
            s == strings_view(classnames@),
            css@ == css_of(s.take(i as int)),
        decreases classnames.len() - i,
    {
        proof {
            reveal_strlit(".");
            reveal_strlit(" {\n}\n");
        }
        assert(s.take(i + 1).drop_last() =~= s.take(i as int));
        assert(s.take(i + 1).last() == classnames@[i as int]@);
        css.append(".");
        css.append(classnames[i].as_str());
        css.append(" {\n}\n");
        assert(css@ =~= css_of(s.take(i as int)) + rule_of(classnames@[i as int]@));
        i += 1;
    }
    assert(s.take(classnames.len() as int) =~= s);
    css
}

/// The stylesheet of a prefix of `names` is a prefix of the stylesheet of
/// `names`.
pub proof fn lemma_css_prefix(names: Seq<Seq<char>>, k: int)
    requires
        0 <= k <= names.len(),
    ensures
        css_of(names.take(k)).len() <= css_of(names).len(),
        css_of(names).take(css_of(names.take(k)).len() as int) == css_of(names.take(k)),
    decreases names.len(),
{
    let p = css_of(names.take(k));
    if k == names.len() {
        assert(names.take(k) =~= names);
        assert(css_of(names).take(css_of(names).len() as int) =~= css_of(names));
    } else {
        let t = names.drop_last();
        assert(t.take(k) =~= names.take(k));
        lemma_css_prefix(t, k);
        assert(css_of(names).take(p.len() as int) =~= css_of(t).take(p.len() as int));
    }
}

/// The rule of the name at `i` stands in the stylesheet right after the rules
/// of the names before it.
pub proof fn lemma_rule_in_css(names: Seq<Seq<char>>, i: int)
    requires
        0 <= i < names.len(),
    ensures
        css_of(names.take(i)).len() < css_of(names.take(i + 1)).len() <= css_of(names).len(),
        css_of(names).subrange(
            css_of(names.take(i)).len() as int,
            css_of(names.take(i + 1)).len() as int,
        ) == rule_of(names[i]),
{
    let q = names.take(i + 1);
    assert(q.drop_last() =~= names.take(i));
    lemma_css_prefix(names, i + 1);
    let whole = css_of(names);
    let a = css_of(names.take(i)).len() as int;
    let b = css_of(q).len() as int;
    assert(whole.subrange(a, b) =~= css_of(q).subrange(a, b)) by {
        assert(whole.take(b) == css_of(q));
    }
    assert(css_of(q).subrange(a, b) =~= rule_of(names[i]));
}

/// Rules come in the order of their names: the rule of the name at `i` ends
/// no later than the rule of the name at `j > i` begins.
pub proof fn lemma_rules_in_order(names: Seq<Seq<char>>, i: int, j: int)
    requires
        0 <= i < j < names.len(),
    ensures
        css_of(names.take(i + 1)).len() <= css_of(names.take(j)).len(),
{
    lemma_css_prefix(names.take(j), i + 1);
    assert(names.take(j).take(i + 1) =~= names.take(i + 1));
}

/// The first line of the rule for `name`: `.`, the name, ` {`.
pub open spec fn selector_line(name: Seq<char>) -> Seq<char> {
    seq!['.'] + name + seq![' ', '{']
}

/// Reads `text` line by line: the lines ended by a line break so far, and
/// what stands after the last line break.
pub open spec fn scan_lines(text: Seq<char>) -> (Seq<Seq<char>>, Seq<char>)
    decreases text.len(),
{
    if text.len() == 0 {
        (Seq::empty(), Seq::empty())
    } else {
        let (done, open) = scan_lines(text.drop_last());
        if text.last() == '\n' {
            (done.push(open), Seq::empty())
        } else {
            (done, open.push(text.last()))
        }
    }
}

/// The lines of `text` that a line break ends, in order.
pub open spec fn lines_of(text: Seq<char>) -> Seq<Seq<char>> {
    scan_lines(text).0
}

/// The lines of the stylesheet of `names`: for each name its selector line,
/// then `}`.
pub open spec fn css_lines(names: Seq<Seq<char>>) -> Seq<Seq<char>> {
    Seq::new(
        2 * names.len(),
        |k: int|
            if k % 2 == 0 {
                selector_line(names[k / 2])
            } else {
                seq!['}']
            },
    )
}

proof fn lemma_scan_plain(a: Seq<char>, w: Seq<char>)
    requires
        !w.contains('\n'),
    ensures
        scan_lines(a + w) == (scan_lines(a).0, scan_lines(a).1 + w),
    decreases w.len(),
{
    if w.len() == 0 {
        assert(a + w =~= a);
        assert(scan_lines(a).1 + w =~= scan_lines(a).1);
    } else {
        let v = w.drop_last();
        assert((a + w).drop_last() =~= a + v);
        if v.contains('\n') {
            let k = choose|k: int| 0 <= k < v.len() && v[k] == '\n';
            assert(w[k] == '\n');
        }
        assert(w[w.len() - 1] != '\n');
        lemma_scan_plain(a, v);
        assert(scan_lines(a).1 + v.push(w.last()) =~= (scan_lines(a).1 + v).push(w.last()));
        assert(v.push(w.last()) =~= w);
    }
}

proof fn lemma_scan_break(a: Seq<char>)
    ensures
        scan_lines(a.push('\n')) == (scan_lines(a).0.push(scan_lines(a).1), Seq::<char>::empty()),
{
    assert(a.push('\n').drop_last() =~= a);
}

proof fn lemma_scan_rule(a: Seq<char>, name: Seq<char>)
    requires
        !name.contains('\n'),
        scan_lines(a).1.len() == 0,
    ensures
        scan_lines(a + rule_of(name)) == (
            scan_lines(a).0.push(selector_line(name)).push(seq!['}']),
            Seq::<char>::empty(),
        ),
{
    let sel = selector_line(name);
    let close = seq!['}'];
    assert(!sel.contains('\n')) by {
        if sel.contains('\n') {
            let k = choose|k: int| 0 <= k < sel.len() && sel[k] == '\n';
            assert(name[k - 1] == '\n');
        }
    }
    assert(!close.contains('\n')) by {
        if close.contains('\n') {
            let k = choose|k: int| 0 <= k < close.len() && close[k] == '\n';
        }
    }
    lemma_scan_plain(a, sel);
    assert(scan_lines(a).1 + sel =~= sel);
    lemma_scan_break(a + sel);
    lemma_scan_plain((a + sel).push('\n'), close);
    assert(Seq::<char>::empty() + close =~= close);
    lemma_scan_break((a + sel).push('\n') + close);
    assert(a + rule_of(name) =~= ((a + sel).push('\n') + close).push('\n'));
}

proof fn lemma_scan_css(names: Seq<Seq<char>>)
    requires
        forall|i: int| 0 <= i < names.len() ==> !(#[trigger] names[i]).contains('\n'),
    ensures
        scan_lines(css_of(names)) == (css_lines(names), Seq::<char>::empty()),
    decreases names.len(),
{
    if names.len() == 0 {
        assert(css_lines(names) =~= Seq::<Seq<char>>::empty());
    } else {
        let t = names.drop_last();
        lemma_scan_css(t);
        assert(!names[names.len() - 1].contains('\n'));
        lemma_scan_rule(css_of(t), names.last());
        assert(css_lines(t).push(selector_line(names.last())).push(seq!['}']) =~= css_lines(names));
    }
}

/// Read line by line, the stylesheet of names that hold no line break is,
/// for each name in order, its selector line `.name {` and then `}`. So a
/// selector line stands there exactly for the names given, names without
/// repeats get one selector line each, and the selector line of the name at
/// `i` comes before that of the name at `j > i`.
pub proof fn lemma_css_lines(names: Seq<Seq<char>>)
    requires
        forall|i: int| 0 <= i < names.len() ==> !(#[trigger] names[i]).contains('\n'),
    ensures
        lines_of(css_of(names)).len() == 2 * names.len(),
        forall|i: int|
            0 <= i < names.len() ==> lines_of(css_of(names))[2 * i] == selector_line(
                #[trigger] names[i],
            ) && lines_of(css_of(names))[2 * i + 1] == seq!['}'],
        forall|c: Seq<char>|
            (exists|k: int|
                0 <= k < lines_of(css_of(names)).len() && lines_of(css_of(names))[k]
                    == selector_line(c)) <==> names.contains(c),
        names.no_duplicates() ==> forall|c: Seq<char>, k1: int, k2: int|
            0 <= k1 < lines_of(css_of(names)).len() && 0 <= k2 < lines_of(css_of(names)).len()
                && lines_of(css_of(names))[k1] == selector_line(c) && lines_of(css_of(names))[k2]
                == selector_line(c) ==> k1 == k2,
{
    lemma_scan_css(names);
    let ls = lines_of(css_of(names));
    assert forall|i: int| 0 <= i < names.len() implies ls[2 * i] == selector_line(
        #[trigger] names[i],
    ) && ls[2 * i + 1] == seq!['}'] by {
        assert((2 * i) % 2 == 0 && (2 * i) / 2 == i);
        assert((2 * i + 1) % 2 == 1);
    }
    assert forall|k: int, c: Seq<char>|
        0 <= k < ls.len() && ls[k] == selector_line(c) implies k % 2 == 0 && names[k / 2] == c by {
        if k % 2 != 0 {
            assert(ls[k] == seq!['}']);
            assert(selector_line(c)[0] == '.');
        }
        let n = names[k / 2];
        assert(selector_line(n) == selector_line(c));
        assert(n =~= selector_line(n).subrange(1, n.len() as int + 1));
        assert(c =~= selector_line(c).subrange(1, c.len() as int + 1));
    }
    assert forall|c: Seq<char>|
        (exists|k: int| 0 <= k < ls.len() && ls[k] == selector_line(c)) <==> names.contains(c) by {
        if names.contains(c) {
            let i = choose|i: int| 0 <= i < names.len() && names[i] == c;
            assert(ls[2 * i] == selector_line(names[i]));
        }
        if exists|k: int| 0 <= k < ls.len() && ls[k] == selector_line(c) {
            let k = choose|k: int| 0 <= k < ls.len() && ls[k] == selector_line(c);
            assert(names[k / 2] == c);
        }
    }
    if names.no_duplicates() {
        assert forall|c: Seq<char>, k1: int, k2: int|
            0 <= k1 < ls.len() && 0 <= k2 < ls.len() && ls[k1] == selector_line(c) && ls[k2]
                == selector_line(c) implies k1 == k2 by {
            assert(names[k1 / 2] == c && names[k2 / 2] == c);
            assert(k1 % 2 == 0 && k2 % 2 == 0);
        }
    }
}

} // verus!
