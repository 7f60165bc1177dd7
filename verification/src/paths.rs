//! Paths as text: their components (as `std::path::Path::components`
//! yields them on Unix), their file name, and the order in which
//! `std::path::Path` compares them.

use vstd::prelude::*;
use crate::text::{chars_of, split_on};

verus! {

/// A piece that does not make a component: empty (repeated or trailing
/// separators) or `.`.
pub open spec fn is_skipped_piece(p: Seq<char>) -> bool {
    p.len() == 0 || p == seq!['.']
}

/// The pieces that make components, in order.
pub open spec fn kept_pieces(pieces: Seq<Seq<char>>) -> Seq<Seq<char>>
    decreases pieces.len(),
{
    if pieces.len() == 0 {
        seq![]
    } else {
        let k = kept_pieces(pieces.drop_last());
        if is_skipped_piece(pieces.last()) {
            k
        } else {
            k.push(pieces.last())
        }
    }
}

/// The path starts at the root directory.
pub open spec fn has_root(s: Seq<char>) -> bool {
    s.len() > 0 && s[0] == '/'
}

/// A relative path whose first piece is `.` keeps it as a leading component.
pub open spec fn has_cur_dir(s: Seq<char>) -> bool {
    s.len() > 0 && s[0] == '.' && (s.len() == 1 || s[1] == '/')
}

/// The components of a path, each as its text: `/` for the root, `.` for a
/// leading current directory, `..` for a parent directory, else the name.
pub open spec fn path_components(s: Seq<char>) -> Seq<Seq<char>> {
    let body = kept_pieces(split_on(s, '/'));
    if has_root(s) {
        seq![seq!['/']] + body
    } else if has_cur_dir(s) {
        seq![seq!['.']] + body
    } else {
        body
    }
}

/// The final component, when it is a name (as `Path::file_name`).
pub open spec fn file_name_of(s: Seq<char>) -> Option<Seq<char>> {
    let c = path_components(s);
    if c.len() > 0 && c.last() != seq!['/'] && c.last() != seq!['.'] && c.last() != seq!['.', '.'] {
        Some(c.last())
    } else {
        None
    }
}

fn is_skipped(p: &Vec<char>) -> (b: bool)
    ensures
        b == is_skipped_piece(p@),
{
    if p.len() == 0 {
        true
    } else if p.len() == 1 && p[0] == '.' {
        assert(p@ =~= seq!['.']);
        true
    } else {
        if p.len() == 1 {
            assert(p@ != seq!['.'] ) by {
                if p@ == seq!['.'] {
                    assert(p@[0] == '.');
                }
            }
        }
        false
    }
}

/// The components of `path`.
pub fn components(path: &str) -> (comps: Vec<Vec<char>>)
    ensures
        comps.deep_view() == path_components(path@),
{
    let v = chars_of(path);
    let mut comps: Vec<Vec<char>> = Vec::new();
    let mut cur: Vec<char> = Vec::new();
    let mut i: usize = 0;
    assert(v@.subrange(0, 0) =~= Seq::<char>::empty());
    while i < v.len()
        invariant
            v@ == path@,
            0 <= i <= v@.len(),
            split_on(v@.subrange(0, i as int), '/').len() > 0,
            comps.deep_view() == kept_pieces(split_on(v@.subrange(0, i as int), '/').drop_last()),
            cur@ == split_on(v@.subrange(0, i as int), '/').last(),
        decreases v@.len() - i,
    {
        let ghost pre = v@.subrange(0, i as int);
        let ghost pieces = split_on(pre, '/');
        let c = v[i];
        proof {
            assert(v@.subrange(0, i + 1).drop_last() =~= pre);
            assert(v@.subrange(0, i + 1).last() == c);
        }
        if c == '/' {
            proof {
                let np = pieces.push(Seq::<char>::empty());
                assert(split_on(v@.subrange(0, i + 1), '/') == np);
                assert(np.drop_last() =~= pieces);
                assert(pieces =~= pieces.drop_last().push(pieces.last()));
            }
            let skip = is_skipped(&cur);
            if !skip {
                let ghost before = comps.deep_view();
                assert(cur.deep_view() =~= cur@);
                comps.push(cur);
                assert(comps.deep_view() =~= before.push(pieces.last()));
            }
            cur = Vec::new();
        } else {
            proof {
                let np = pieces.update(pieces.len() - 1, pieces.last().push(c));
                assert(split_on(v@.subrange(0, i + 1), '/') == np);
                assert(np.drop_last() =~= pieces.drop_last());
            }
            cur.push(c);
        }
        i = i + 1;
    }
    proof {
        let pieces = split_on(v@, '/');
        assert(v@.subrange(0, v@.len() as int) =~= v@);
        assert(pieces =~= pieces.drop_last().push(pieces.last()));
    }
    let skip = is_skipped(&cur);
    if !skip {
        let ghost before = comps.deep_view();
        assert(cur.deep_view() =~= cur@);
        comps.push(cur);
        assert(comps.deep_view() =~= before.push(split_on(v@, '/').last()));
    }
    let ghost body = comps.deep_view();
    assert(body == kept_pieces(split_on(path@, '/')));
    if v.len() > 0 && v[0] == '/' {
        let mut out: Vec<Vec<char>> = Vec::new();
        let mut root: Vec<char> = Vec::new();
        root.push('/');
        assert(root.deep_view() =~= seq!['/']);
        out.push(root);
        out.append(&mut comps);
        assert(out.deep_view() =~= seq![seq!['/']] + body);
        out
    } else if v.len() > 0 && v[0] == '.' && (v.len() == 1 || v[1] == '/') {
        let mut out: Vec<Vec<char>> = Vec::new();
        let mut dot: Vec<char> = Vec::new();
        dot.push('.');
        assert(dot.deep_view() =~= seq!['.']);
        out.push(dot);
        out.append(&mut comps);
        assert(out.deep_view() =~= seq![seq!['.']] + body);
        out
    } else {
        comps
    }
}

/// Lexicographic comparison of texts by code point: -1, 0 or 1.
pub open spec fn text_order(a: Seq<char>, b: Seq<char>) -> int
    decreases a.len(),
{
    if a.len() == 0 {
        if b.len() == 0 {
            0
        } else {
            -1
        }
    } else if b.len() == 0 {
        1
    } else if (a[0] as u32) < (b[0] as u32) {
        -1
    } else if (a[0] as u32) > (b[0] as u32) {
        1
    } else {
        text_order(a.drop_first(), b.drop_first())
    }
}

/// The kind of a component, in the order `Path` ranks kinds:
/// root, current directory, parent directory, name.
pub open spec fn component_kind(c: Seq<char>) -> int {
    if c == seq!['/'] {
        0
    } else if c == seq!['.'] {
        1
    } else if c == seq!['.', '.'] {
        2
    } else {
        3
    }
}

/// Comparison of two components: by kind, then by text.
pub open spec fn component_order(a: Seq<char>, b: Seq<char>) -> int {
    if component_kind(a) < component_kind(b) {
        -1
    } else if component_kind(a) > component_kind(b) {
        1
    } else {
        text_order(a, b)
    }
}

/// Lexicographic comparison of component lists (the order of `Path`).
pub open spec fn components_order(x: Seq<Seq<char>>, y: Seq<Seq<char>>) -> int
    decreases x.len(),
{
    if x.len() == 0 {
        if y.len() == 0 {
            0
        } else {
            -1
        }
    } else if y.len() == 0 {
        1
    } else if component_order(x[0], y[0]) != 0 {
        component_order(x[0], y[0])
    } else {
        components_order(x.drop_first(), y.drop_first())
    }
}

pub proof fn lemma_text_order_props(a: Seq<char>, b: Seq<char>)
    ensures
        text_order(a, b) == -text_order(b, a),
        -1 <= text_order(a, b) <= 1,
        text_order(a, b) == 0 <==> a == b,
    decreases a.len(),
{
    if a.len() > 0 && b.len() > 0 {
        lemma_text_order_props(a.drop_first(), b.drop_first());
        if (a[0] as u32) == (b[0] as u32) {
            vstd::utf8::char_u32_cast(a[0], a[0] as u32);
            vstd::utf8::char_u32_cast(b[0], b[0] as u32);
            assert(a[0] == b[0]);
            if a.drop_first() == b.drop_first() {
                assert(a =~= seq![a[0]] + a.drop_first());
                assert(b =~= seq![b[0]] + b.drop_first());
            }
        }
    } else if a.len() == 0 && b.len() == 0 {
        assert(a =~= b);
    }
}

pub proof fn lemma_text_order_trans(a: Seq<char>, b: Seq<char>, c: Seq<char>)
    requires
        text_order(a, b) <= 0,
        text_order(b, c) <= 0,
    ensures
        text_order(a, c) <= 0,
    decreases a.len(),
{
    if a.len() > 0 && b.len() > 0 && c.len() > 0 {
        if (a[0] as u32) == (b[0] as u32) && (b[0] as u32) == (c[0] as u32) {
            lemma_text_order_trans(a.drop_first(), b.drop_first(), c.drop_first());
        }
    }
}

pub proof fn lemma_component_order_props(a: Seq<char>, b: Seq<char>)
    ensures
        component_order(a, b) == -component_order(b, a),
        -1 <= component_order(a, b) <= 1,
        component_order(a, b) == 0 <==> a == b,
{
    lemma_text_order_props(a, b);
}

pub proof fn lemma_component_order_trans(a: Seq<char>, b: Seq<char>, c: Seq<char>)
    requires
        component_order(a, b) <= 0,
        component_order(b, c) <= 0,
    ensures
        component_order(a, c) <= 0,
{
    if component_kind(a) == component_kind(b) && component_kind(b) == component_kind(c) {
        lemma_text_order_trans(a, b, c);
    }
}

pub proof fn lemma_components_order_props(x: Seq<Seq<char>>, y: Seq<Seq<char>>)
    ensures
        components_order(x, y) == -components_order(y, x),
        -1 <= components_order(x, y) <= 1,
        components_order(x, y) == 0 <==> x == y,
    decreases x.len(),
{
    if x.len() > 0 && y.len() > 0 {
        lemma_component_order_props(x[0], y[0]);
        lemma_components_order_props(x.drop_first(), y.drop_first());
        if x[0] == y[0] && x.drop_first() == y.drop_first() {
            assert(x =~= seq![x[0]] + x.drop_first());
            assert(y =~= seq![y[0]] + y.drop_first());
        }
    } else if x.len() == 0 && y.len() == 0 {
        assert(x =~= y);
    }
}

pub proof fn lemma_components_order_trans(x: Seq<Seq<char>>, y: Seq<Seq<char>>, z: Seq<Seq<char>>)
    requires
        components_order(x, y) <= 0,
        components_order(y, z) <= 0,
    ensures
        components_order(x, z) <= 0,
    decreases x.len(),
{
    if x.len() > 0 && y.len() > 0 && z.len() > 0 {
        lemma_component_order_props(x[0], y[0]);
        lemma_component_order_props(y[0], z[0]);
        lemma_component_order_props(x[0], z[0]);
        if component_order(x[0], y[0]) == 0 && component_order(y[0], z[0]) == 0 {
            lemma_components_order_trans(x.drop_first(), y.drop_first(), z.drop_first());
        } else {
            lemma_component_order_trans(x[0], y[0], z[0]);
            if component_order(x[0], z[0]) == 0 {
                // x[0] == z[0], so y[0] sits between equal components
                lemma_component_order_props(y[0], x[0]);
            }
        }
    }
}

fn text_compare(a: &Vec<char>, b: &Vec<char>) -> (r: i8)
    ensures
        r as int == text_order(a@, b@),
{
    let mut i: usize = 0;
    assert(a@.subrange(0, a@.len() as int) =~= a@);
    assert(b@.subrange(0, b@.len() as int) =~= b@);
    while i < a.len() && i < b.len()
        invariant
            0 <= i <= a@.len(),
            i <= b@.len(),
            text_order(a@, b@) == text_order(a@.subrange(i as int, a@.len() as int), b@.subrange(i as int, b@.len() as int)),
        decreases a@.len() - i,
    {
        let ghost sa = a@.subrange(i as int, a@.len() as int);
        let ghost sb = b@.subrange(i as int, b@.len() as int);
        let cu = a[i] as u32;
        let du = b[i] as u32;
        if cu < du {
            return -1;
        }
        if cu > du {
            return 1;
        }
        proof {
            assert(sa[0] == a@[i as int]);
            assert(sb[0] == b@[i as int]);
            assert(sa.drop_first() =~= a@.subrange(i + 1, a@.len() as int));
            assert(sb.drop_first() =~= b@.subrange(i + 1, b@.len() as int));
        }
        i = i + 1;
    }
    if i < a.len() {
        1
    } else if i < b.len() {
        -1
    } else {
        0
    }
}

fn kind_of(c: &Vec<char>) -> (k: i8)
    ensures
        k as int == component_kind(c@),
{
    if c.len() == 1 && c[0] == '/' {
        assert(c@ =~= seq!['/']);
        0
    } else if c.len() == 1 && c[0] == '.' {
        assert(c@ =~= seq!['.']);
        1
    } else if c.len() == 2 && c[0] == '.' && c[1] == '.' {
        assert(c@ =~= seq!['.', '.']);
        2
    } else {
        assert(c@ != seq!['/']) by {
            if c@ == seq!['/'] {
                assert(c@[0] == '/');
            }
        }
        assert(c@ != seq!['.']) by {
            if c@ == seq!['.'] {
                assert(c@[0] == '.');
            }
        }
        assert(c@ != seq!['.', '.']) by {
            if c@ == seq!['.', '.'] {
                assert(c@[0] == '.' && c@[1] == '.');
            }
        }
        3
    }
}

fn component_compare(a: &Vec<char>, b: &Vec<char>) -> (r: i8)
    ensures
        r as int == component_order(a@, b@),
{
    let ka = kind_of(a);
    let kb = kind_of(b);
    if ka < kb {
        -1
    } else if ka > kb {
        1
    } else {
        text_compare(a, b)
    }
}

/// Compares two component lists in `Path` order.
pub fn components_compare(x: &Vec<Vec<char>>, y: &Vec<Vec<char>>) -> (r: i8)
    ensures
        r as int == components_order(x.deep_view(), y.deep_view()),
{
    let ghost dx = x.deep_view();
    let ghost dy = y.deep_view();
    let mut i: usize = 0;
    assert(dx.subrange(0, dx.len() as int) =~= dx);
    assert(dy.subrange(0, dy.len() as int) =~= dy);
    while i < x.len() && i < y.len()
        invariant
            dx == x.deep_view(),
            dy == y.deep_view(),
            0 <= i <= x@.len(),
            i <= y@.len(),
            components_order(dx, dy) == components_order(dx.subrange(i as int, dx.len() as int), dy.subrange(i as int, dy.len() as int)),
        decreases x@.len() - i,
    {
        let ghost sx = dx.subrange(i as int, dx.len() as int);
        let ghost sy = dy.subrange(i as int, dy.len() as int);
        proof {
            assert(x[i as int].deep_view() =~= x[i as int]@);
            assert(y[i as int].deep_view() =~= y[i as int]@);
            assert(sx[0] == dx[i as int]);
            assert(sy[0] == dy[i as int]);
        }
        let r = component_compare(&x[i], &y[i]);
        if r != 0 {
            return r;
        }
        proof {
            assert(sx.drop_first() =~= dx.subrange(i + 1, dx.len() as int));
            assert(sy.drop_first() =~= dy.subrange(i + 1, dy.len() as int));
        }
        i = i + 1;
    }
    if i < x.len() {
        1
    } else if i < y.len() {
        -1
    } else {
        0
    }
}

} // verus!
