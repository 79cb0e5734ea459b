//! File system paths as text.
//!
//! A path is read for a system. On Windows both slashes separate, and in front
//! there may be a drive (`C:`) or a share (`\\server\share`). On Unix only `/`
//! separates. Two texts name the same path where their components are equal.

use vstd::prelude::*;
use vstd::string::*;

use crate::text;
use crate::text::{
    ascii_letter, ascii_upper, cat, cat3, chars_of, same_text, split, string_range, to_decimal,
};

verus! {

/// The kind of system that a path belongs to.
#[derive(Debug, PartialEq, Eq, Structural, Clone, Copy)]
pub enum System {
    Unix,
    Windows,
}

impl DeepView for System {
    type V = System;

    open spec fn deep_view(&self) -> System {
        *self
    }
}

/// One component of a path, as the contracts speak of it.
pub enum Comp {
    Drive(char),
    /// A server and what it shares. A root follows it.
    Share(Seq<char>, Seq<char>),
    Root,
    Cur,
    Up,
    Name(Seq<char>),
}

/// One component of a path.
#[derive(Debug, PartialEq, Eq)]
pub enum Component {
    Drive(char),
    /// A server and what it shares. A root follows it.
    Share(String, String),
    Root,
    CurDir,
    ParentDir,
    Name(String),
}

impl DeepView for Component {
    type V = Comp;

    open spec fn deep_view(&self) -> Comp {
        match self {
            Component::Drive(d) => Comp::Drive(*d),
            Component::Share(a, b) => Comp::Share(a@, b@),
            Component::Root => Comp::Root,
            Component::CurDir => Comp::Cur,
            Component::ParentDir => Comp::Up,
            Component::Name(n) => Comp::Name(n@),
        }
    }
}

impl Clone for Component {
    fn clone(&self) -> (r: Self)
        ensures
            r == *self,
    {
        match self {
            Component::Drive(d) => Component::Drive(*d),
            Component::Share(a, b) => Component::Share(a.clone(), b.clone()),
            Component::Root => Component::Root,
            Component::CurDir => Component::CurDir,
            Component::ParentDir => Component::ParentDir,
            Component::Name(n) => Component::Name(n.clone()),
        }
    }
}

impl Component {
    pub fn same(&self, other: &Component) -> (r: bool)
        ensures
            r == (self.deep_view() == other.deep_view()),
    {
        match (self, other) {
            (Component::Drive(a), Component::Drive(b)) => *a == *b,
            (Component::Share(a, b), Component::Share(c, d)) => same_text(a.as_str(), c.as_str())
                && same_text(b.as_str(), d.as_str()),
            (Component::Root, Component::Root) => true,
            (Component::CurDir, Component::CurDir) => true,
            (Component::ParentDir, Component::ParentDir) => true,
            (Component::Name(a), Component::Name(b)) => same_text(a.as_str(), b.as_str()),
            _ => false,
        }
    }
}

// ---------------------------------------------------------------------------
// Reading a path
// ---------------------------------------------------------------------------

/// The separator that paths are written with. `/` separates everywhere.
pub open spec fn sep_of(sys: System) -> char {
    match sys {
        System::Unix => '/',
        System::Windows => '\\',
    }
}

pub fn separator(sys: System) -> (r: char)
    ensures
        r == sep_of(sys),
{
    match sys {
        System::Unix => '/',
        System::Windows => '\\',
    }
}

pub open spec fn is_sep(c: char, sys: System) -> bool {
    c == '/' || c == sep_of(sys)
}

pub open spec fn parts(s: Seq<char>, sys: System) -> Seq<Seq<char>> {
    text::pieces(s, '/', sep_of(sys))
}

/// Whether a text begins with a letter and a colon.
pub open spec fn drive_in_front(s: Seq<char>) -> bool {
    s.len() >= 2 && text::is_ascii_letter(s[0]) && s[1] == ':'
}

pub open spec fn has_drive(s: Seq<char>, sys: System) -> bool {
    sys is Windows && drive_in_front(s)
}

/// Whether a path begins with two separators, a server and a share.
pub open spec fn has_share(s: Seq<char>, sys: System) -> bool {
    &&& sys is Windows
    &&& s.len() >= 2
    &&& is_sep(s[0], sys)
    &&& is_sep(s[1], sys)
    &&& parts(s.skip(2), sys).len() >= 2
    &&& parts(s.skip(2), sys)[0].len() > 0
    &&& parts(s.skip(2), sys)[1].len() > 0
}

/// What follows the drive.
pub open spec fn after_drive(s: Seq<char>, sys: System) -> Seq<char> {
    if has_drive(s, sys) {
        s.skip(2)
    } else {
        s
    }
}

pub open spec fn begins_with_sep(s: Seq<char>, sys: System) -> bool {
    s.len() > 0 && is_sep(s[0], sys)
}

/// The components that the pieces between separators stand for: empty pieces
/// stand for nothing, and neither does `.` but for the very first piece.
pub open spec fn piece_comps(ps: Seq<Seq<char>>) -> Seq<Comp>
    decreases ps.len(),
{
    if ps.len() == 0 {
        Seq::empty()
    } else {
        let head = piece_comps(ps.drop_last());
        let p = ps.last();
        if p.len() == 0 {
            head
        } else if p == seq!['.'] {
            if ps.len() == 1 {
                head.push(Comp::Cur)
            } else {
                head
            }
        } else if p == seq!['.', '.'] {
            head.push(Comp::Up)
        } else {
            head.push(Comp::Name(p))
        }
    }
}

/// What stands in front of the names: drive or share, and root.
pub open spec fn anchor(s: Seq<char>, sys: System) -> Seq<Comp> {
    if has_share(s, sys) {
        let ps = parts(s.skip(2), sys);
        seq![Comp::Share(ps[0], ps[1]), Comp::Root]
    } else {
        let d = if has_drive(s, sys) {
            seq![Comp::Drive(text::upper_of(s[0]))]
        } else {
            Seq::empty()
        };
        if begins_with_sep(after_drive(s, sys), sys) {
            d.push(Comp::Root)
        } else {
            d
        }
    }
}

/// The pieces behind drive or share. An empty one comes first where the path
/// has a root.
pub open spec fn body_parts(s: Seq<char>, sys: System) -> Seq<Seq<char>> {
    if has_share(s, sys) {
        seq![Seq::<char>::empty()] + parts(s.skip(2), sys).skip(2)
    } else {
        parts(after_drive(s, sys), sys)
    }
}

/// The components of a path.
pub open spec fn components(s: Seq<char>, sys: System) -> Seq<Comp> {
    anchor(s, sys) + piece_comps(body_parts(s, sys))
}

pub proof fn lemma_dot_text(p: Seq<char>)
    ensures
        p == seq!['.'] <==> p.len() == 1 && p[0] == '.',
        p == seq!['.', '.'] <==> p.len() == 2 && p[0] == '.' && p[1] == '.',
{
    if p.len() == 1 && p[0] == '.' {
        assert(p =~= seq!['.']);
    }
    if p.len() == 2 && p[0] == '.' && p[1] == '.' {
        assert(p =~= seq!['.', '.']);
    }
}

fn starts_with_drive(v: &Vec<char>) -> (r: bool)
    ensures
        r == drive_in_front(v@),
{
    v.len() >= 2 && ascii_letter(v[0]) && v[1] == ':'
}

fn separates(c: char, sys: System) -> (r: bool)
    ensures
        r == is_sep(c, sys),
{
    c == '/' || c == separator(sys)
}

/// The pieces behind the first two separators, where they begin with a server
/// and a share.
fn share_parts(v: &Vec<char>, sys: System) -> (r: Option<Vec<String>>)
    ensures
        match r {
            Some(ps) => has_share(v@, sys) && ps.deep_view() == parts(v@.skip(2), sys),
            None => !has_share(v@, sys),
        },
{
    match sys {
        System::Unix => {
            return None;
        },
        System::Windows => {},
    }
    if v.len() < 2 || !separates(v[0], sys) || !separates(v[1], sys) {
        return None;
    }
    let ps = split(v, 2, '/', '\\');
    let ghost all = ps.deep_view();
    if ps.len() < 2 {
        return None;
    }
    let server = chars_of(ps[0].as_str());
    let share = chars_of(ps[1].as_str());
    assert(all[0] == server@ && all[1] == share@);
    if server.len() == 0 || share.len() == 0 {
        return None;
    }
    Some(ps)
}

fn add_pieces(out: &mut Vec<Component>, ps: &Vec<String>)
    ensures
        final(out).deep_view() == old(out).deep_view() + piece_comps(ps.deep_view()),
{
    let ghost front = out.deep_view();
    let ghost all = ps.deep_view();
    let mut i: usize = 0;
    assert(all.take(0) =~= Seq::empty());
    assert(out.deep_view() =~= front + piece_comps(all.take(0)));
    while i < ps.len()
        invariant
            i <= ps@.len(),
            all == ps.deep_view(),
            out.deep_view() == front + piece_comps(all.take(i as int)),
        decreases ps@.len() - i,
    {
        let ghost before = out.deep_view();
        let piece = chars_of(ps[i].as_str());
        proof {
            assert(all.take(i + 1).drop_last() =~= all.take(i as int));
            assert(all.take(i + 1).last() == piece@);
            lemma_dot_text(piece@);
        }
        if piece.len() == 0 {
        } else if piece.len() == 1 && piece[0] == '.' {
            if i == 0 {
                out.push(Component::CurDir);
                assert(out.deep_view() =~= before.push(Comp::Cur));
            }
        } else if piece.len() == 2 && piece[0] == '.' && piece[1] == '.' {
            out.push(Component::ParentDir);
            assert(out.deep_view() =~= before.push(Comp::Up));
        } else {
            out.push(Component::Name(ps[i].clone()));
            assert(out.deep_view() =~= before.push(Comp::Name(piece@)));
        }
        assert(out.deep_view() =~= front + piece_comps(all.take(i + 1)));
        i = i + 1;
    }
    assert(all.take(ps@.len() as int) =~= all);
}

pub fn parse(s: &str, sys: System) -> (r: Vec<Component>)
    ensures
        r.deep_view() == components(s@, sys),
{
    let v = chars_of(s);
    let mut out: Vec<Component> = Vec::new();
    match share_parts(&v, sys) {
        Some(mut ps) => {
            let ghost all = ps.deep_view();
            let server = ps.remove(0);
            let share = ps.remove(0);
            ps.insert(0, String::new());
            proof {
                assert(all[0] == server@ && all[1] == share@);
                assert(ps.deep_view() =~= seq![Seq::<char>::empty()] + all.skip(2));
            }
            out.push(Component::Share(server, share));
            out.push(Component::Root);
            assert(out.deep_view() =~= anchor(s@, sys));
            add_pieces(&mut out, &ps);
            return out;
        },
        None => {},
    }
    let drive = match sys {
        System::Unix => false,
        System::Windows => starts_with_drive(&v),
    };
    let from: usize = if drive {
        2
    } else {
        0
    };
    if drive {
        out.push(Component::Drive(ascii_upper(v[0])));
    }
    proof {
        if !drive {
            assert(s@.skip(0) =~= s@);
        }
        assert(v@.skip(from as int) == after_drive(s@, sys));
        if from < v@.len() {
            assert(after_drive(s@, sys)[0] == v@[from as int]);
        }
    }
    if from < v.len() && separates(v[from], sys) {
        out.push(Component::Root);
    }
    assert(out.deep_view() =~= anchor(s@, sys));
    let ps = split(&v, from, '/', separator(sys));
    add_pieces(&mut out, &ps);
    out
}

// ---------------------------------------------------------------------------
// Writing a path
// ---------------------------------------------------------------------------

/// Whether a component is one that only paths of Windows begin with.
pub open spec fn is_prefix(c: Comp) -> bool {
    c is Drive || c is Share
}

pub open spec fn is_anchor(c: Comp) -> bool {
    is_prefix(c) || c is Root
}

/// The text of a component that is none of the anchors.
pub open spec fn piece_text(c: Comp) -> Seq<char> {
    match c {
        Comp::Cur => seq!['.'],
        Comp::Up => seq!['.', '.'],
        Comp::Name(n) => n,
        _ => Seq::empty(),
    }
}

pub open spec fn share_text(server: Seq<char>, share: Seq<char>) -> Seq<char> {
    seq!['\\', '\\'] + server.push('\\') + share
}

/// The plain text of a path with these components.
pub open spec fn rendered(c: Seq<Comp>, sys: System) -> Seq<char>
    decreases c.len(),
{
    if c.len() == 0 {
        Seq::empty()
    } else {
        let head = rendered(c.drop_last(), sys);
        match c.last() {
            Comp::Drive(d) => head.push(d).push(':'),
            Comp::Share(a, b) => head + share_text(a, b),
            Comp::Root => head.push(sep_of(sys)),
            x => if c.len() == 1 || is_anchor(c[c.len() - 2]) {
                head + piece_text(x)
            } else {
                head.push(sep_of(sys)) + piece_text(x)
            },
        }
    }
}

pub fn render(c: &Vec<Component>, n: usize, sys: System) -> (r: String)
    requires
        n <= c@.len(),
    ensures
        r@ == rendered(c.deep_view().take(n as int), sys),
{
    let ghost all = c.deep_view();
    let mut out = String::new();
    let sep = separator(sys);
    let mut after_anchor = true;
    let mut i: usize = 0;
    assert(all.take(0) =~= Seq::empty());
    while i < n
        invariant
            i <= n <= c@.len(),
            all == c.deep_view(),
            sep == sep_of(sys),
            after_anchor == (i == 0 || is_anchor(all[i - 1])),
            out@ == rendered(all.take(i as int), sys),
        decreases n - i,
    {
        proof {
            let t = all.take(i + 1);
            assert(t.drop_last() =~= all.take(i as int));
            assert(t.last() == all[i as int]);
            assert(all[i as int] == c@[i as int].deep_view());
            if i > 0 {
                assert(t[t.len() - 2] == all[i - 1]);
            }
        }
        match &c[i] {
            Component::Drive(d) => {
                out.push(*d);
                out.push(':');
                after_anchor = true;
            },
            Component::Share(a, b) => {
                let ghost so_far = out@;
                out.push('\\');
                out.push('\\');
                out.append(a.as_str());
                out.push('\\');
                out.append(b.as_str());
                assert(out@ =~= so_far + share_text(a@, b@));
                after_anchor = true;
            },
            Component::Root => {
                out.push(sep);
                after_anchor = true;
            },
            Component::CurDir => {
                if !after_anchor {
                    out.push(sep);
                }
                let ghost so_far = out@;
                out.push('.');
                assert(out@ =~= so_far + seq!['.']);
                after_anchor = false;
            },
            Component::ParentDir => {
                if !after_anchor {
                    out.push(sep);
                }
                let ghost so_far = out@;
                out.push('.');
                out.push('.');
                assert(out@ =~= so_far + seq!['.', '.']);
                after_anchor = false;
            },
            Component::Name(name) => {
                if !after_anchor {
                    out.push(sep);
                }
                out.append(name.as_str());
                after_anchor = false;
            },
        }
        i = i + 1;
    }
    out
}

pub fn render_all(c: &Vec<Component>, sys: System) -> (r: String)
    ensures
        r@ == rendered(c.deep_view(), sys),
{
    let r = render(c, c.len(), sys);
    assert(c.deep_view().take(c@.len() as int) =~= c.deep_view());
    r
}

// ---------------------------------------------------------------------------
// Writing a path and reading it back
// ---------------------------------------------------------------------------

pub open spec fn is_name(n: Seq<char>, sys: System) -> bool {
    &&& n.len() > 0
    &&& n != seq!['.']
    &&& n != seq!['.', '.']
    &&& !text::has_char(n, '/')
    &&& !text::has_char(n, sep_of(sys))
}

/// How many of the first components are drive or share, and root.
pub open spec fn anchor_len(c: Seq<Comp>) -> int {
    if c.len() > 0 && is_prefix(c[0]) {
        if c.len() > 1 && c[1] is Root {
            2
        } else {
            1
        }
    } else if c.len() > 0 && c[0] is Root {
        1
    } else {
        0
    }
}

/// Components that may stand in front: a drive is a capital letter, and behind
/// a share comes a root.
pub open spec fn anchor_ok(c: Seq<Comp>, sys: System) -> bool {
    &&& c.len() > 0 && c[0] is Drive ==> sys is Windows && text::is_ascii_letter(c[0]->Drive_0)
        && text::upper_of(c[0]->Drive_0) == c[0]->Drive_0
    &&& c.len() > 0 && c[0] is Share ==> {
        &&& sys is Windows
        &&& c.len() > 1
        &&& c[1] is Root
        &&& c[0]->Share_0.len() > 0
        &&& c[0]->Share_1.len() > 0
        &&& !text::has_char(c[0]->Share_0, '/') && !text::has_char(c[0]->Share_0, '\\')
        &&& !text::has_char(c[0]->Share_1, '/') && !text::has_char(c[0]->Share_1, '\\')
    }
}

/// Whether a component may stand at place `i` behind what stands in front: `.`
/// only first and only where there is no root, names without separators, and a
/// first name that is not taken for a drive.
pub open spec fn comp_ok(c: Seq<Comp>, i: int, sys: System) -> bool {
    match c[i] {
        Comp::Drive(_) | Comp::Share(_, _) | Comp::Root => false,
        Comp::Cur => i == anchor_len(c) && (i == 0 || c[i - 1] is Drive),
        Comp::Up => true,
        Comp::Name(n) => is_name(n, sys) && (i == 0 ==> !has_drive(n, sys)),
    }
}

/// Components as reading a path gives them.
pub open spec fn well_formed(c: Seq<Comp>, sys: System) -> bool {
    &&& anchor_ok(c, sys)
    &&& forall|i: int| anchor_len(c) <= i < c.len() ==> #[trigger] comp_ok(c, i, sys)
}

proof fn lemma_pieces_push_text(s: Seq<char>, p: Seq<char>, a: char, b: char)
    requires
        !text::has_char(p, a),
        !text::has_char(p, b),
    ensures
        text::pieces(s + p, a, b) == text::pieces(s, a, b).drop_last().push(
            text::pieces(s, a, b).last() + p,
        ),
    decreases p.len(),
{
    text::lemma_pieces_nonempty(s, a, b);
    if p.len() == 0 {
        assert(s + p =~= s);
        let r = text::pieces(s, a, b);
        assert(r.last() + p =~= r.last());
        assert(r.drop_last().push(r.last()) =~= r);
    } else {
        assert forall|i: int| 0 <= i < p.drop_last().len() implies p.drop_last()[i] != a
            && p.drop_last()[i] != b by {
            assert(p.drop_last()[i] == p[i]);
        }
        lemma_pieces_push_text(s, p.drop_last(), a, b);
        assert((s + p).drop_last() =~= s + p.drop_last());
        assert((s + p).last() == p.last());
        let r = text::pieces(s, a, b);
        let q = text::pieces(s + p.drop_last(), a, b);
        assert(q.drop_last() =~= r.drop_last());
        assert(q.last() == r.last() + p.drop_last());
        assert((r.last() + p.drop_last()).push(p.last()) =~= r.last() + p);
    }
}

pub proof fn lemma_pieces_of_plain(p: Seq<char>, a: char, b: char)
    requires
        !text::has_char(p, a),
        !text::has_char(p, b),
    ensures
        text::pieces(p, a, b) == seq![p],
{
    let e = Seq::<char>::empty();
    lemma_pieces_push_text(e, p, a, b);
    assert(e + p =~= p);
    assert(text::pieces(e, a, b) =~= seq![e]);
    assert(seq![e].drop_last() =~= Seq::empty());
    assert(Seq::<Seq<char>>::empty().push(p) =~= seq![p]);
}

/// A separator between two texts puts their pieces in a row.
pub proof fn lemma_pieces_concat(s: Seq<char>, sep: char, t: Seq<char>, a: char, b: char)
    requires
        sep == a || sep == b,
    ensures
        text::pieces(s.push(sep) + t, a, b) == text::pieces(s, a, b) + text::pieces(t, a, b),
    decreases t.len(),
{
    let ps = text::pieces(s, a, b);
    if t.len() == 0 {
        assert(s.push(sep) + t =~= s.push(sep));
        assert(s.push(sep).drop_last() =~= s);
        assert(ps + text::pieces(t, a, b) =~= ps.push(Seq::empty()));
    } else {
        lemma_pieces_concat(s, sep, t.drop_last(), a, b);
        let u = s.push(sep) + t;
        assert(u.drop_last() =~= s.push(sep) + t.drop_last());
        assert(u.last() == t.last());
        let qs = text::pieces(t.drop_last(), a, b);
        text::lemma_pieces_nonempty(t.drop_last(), a, b);
        if t.last() == a || t.last() == b {
            assert((ps + qs).push(Seq::empty()) =~= ps + qs.push(Seq::empty()));
        } else {
            assert((ps + qs).drop_last() =~= ps + qs.drop_last());
            assert((ps + qs).last() == qs.last());
            assert((ps + qs).drop_last().push(qs.last().push(t.last())) =~= ps
                + qs.drop_last().push(qs.last().push(t.last())));
        }
    }
}

/// The texts of the components behind drive and root.
pub open spec fn texts(c: Seq<Comp>) -> Seq<Seq<char>> {
    c.map_values(|x: Comp| piece_text(x))
}

pub open spec fn is_rooted(c: Seq<Comp>) -> bool {
    anchor_len(c) > 0 && c[anchor_len(c) - 1] is Root
}

pub open spec fn prefix_text(c: Seq<Comp>) -> Seq<char> {
    if c.len() > 0 {
        match c[0] {
            Comp::Drive(d) => seq![d, ':'],
            Comp::Share(a, b) => share_text(a, b),
            _ => Seq::empty(),
        }
    } else {
        Seq::empty()
    }
}

pub open spec fn root_text(c: Seq<Comp>, sys: System) -> Seq<char> {
    if is_rooted(c) {
        seq![sep_of(sys)]
    } else {
        Seq::empty()
    }
}

proof fn lemma_well_formed_prefix(c: Seq<Comp>, n: int, sys: System)
    requires
        well_formed(c, sys),
        anchor_len(c) <= n <= c.len(),
    ensures
        well_formed(c.take(n), sys),
        anchor_len(c.take(n)) == anchor_len(c),
{
    let t = c.take(n);
    if n == 0 {
        assert(anchor_len(c) == 0);
    }
    if c.len() > 1 && n == 1 && is_prefix(c[0]) {
        assert(!(c[1] is Root));
    }
    assert forall|i: int| anchor_len(t) <= i < t.len() implies #[trigger] comp_ok(t, i, sys) by {
        assert(comp_ok(c, i, sys));
        assert(t[i] == c[i]);
    }
}

proof fn lemma_rendered_parts(c: Seq<Comp>, sys: System)
    requires
        well_formed(c, sys),
    ensures
        rendered(c, sys) == prefix_text(c) + root_text(c, sys) + text::joined(
            texts(c.skip(anchor_len(c))),
            sep_of(sys),
        ),
    decreases c.len(),
{
    let k = anchor_len(c);
    let body = texts(c.skip(k));
    let whole = prefix_text(c) + root_text(c, sys) + text::joined(body, sep_of(sys));
    if c.len() == k {
        assert(body =~= Seq::empty());
        reveal_with_fuel(rendered, 3);
        if k == 2 {
            assert(c.drop_last().drop_last() =~= Seq::empty());
            assert(c.drop_last().last() == c[0]);
            assert(rendered(c, sys) =~= whole);
        } else if k == 1 {
            assert(c.drop_last() =~= Seq::empty());
            assert(rendered(c, sys) =~= whole);
        } else {
            assert(rendered(c, sys) =~= whole);
        }
    } else {
        let h = c.drop_last();
        assert(comp_ok(c, c.len() - 1, sys));
        lemma_well_formed_prefix(c, c.len() - 1, sys);
        assert(c.take(c.len() - 1) =~= h);
        lemma_rendered_parts(h, sys);
        let hb = texts(h.skip(k));
        assert(body.drop_last() =~= hb);
        assert(body.last() == piece_text(c.last()));
        assert(prefix_text(h) =~= prefix_text(c));
        assert(c[c.len() - 1] == c.last());
        if body.len() == 1 {
            assert(hb =~= Seq::empty());
            assert(rendered(c, sys) =~= whole);
        } else {
            assert(comp_ok(c, c.len() - 2, sys));
            assert(!is_anchor(c[c.len() - 2]));
            assert(root_text(h, sys) =~= root_text(c, sys));
            assert(rendered(c, sys) =~= whole);
        }
    }
}

pub proof fn lemma_pieces_of_joined(body: Seq<Seq<char>>, sep: char, other: char)
    requires
        body.len() > 0,
        sep == '/' || sep == other,
        forall|i: int|
            0 <= i < body.len() ==> !text::has_char(#[trigger] body[i], '/') && !text::has_char(
                body[i],
                other,
            ),
    ensures
        text::pieces(text::joined(body, sep), '/', other) == body,
    decreases body.len(),
{
    if body.len() == 1 {
        lemma_pieces_of_plain(body[0], '/', other);
        assert(seq![body[0]] =~= body);
    } else {
        let h = body.drop_last();
        assert forall|i: int| 0 <= i < h.len() implies !text::has_char(#[trigger] h[i], '/')
            && !text::has_char(h[i], other) by {
            assert(h[i] == body[i]);
        }
        lemma_pieces_of_joined(h, sep, other);
        lemma_pieces_concat(text::joined(h, sep), sep, body.last(), '/', other);
        lemma_pieces_of_plain(body[body.len() - 1], '/', other);
        assert(h + seq![body.last()] =~= body);
    }
}

proof fn lemma_comps_of_texts(c: Seq<Comp>, lead: Seq<Seq<char>>, sys: System)
    requires
        forall|i: int| 0 <= i < lead.len() ==> (#[trigger] lead[i]).len() == 0,
        forall|i: int|
            0 <= i < c.len() ==> match #[trigger] c[i] {
                Comp::Drive(_) | Comp::Share(_, _) | Comp::Root => false,
                Comp::Cur => i == 0 && lead.len() == 0,
                Comp::Up => true,
                Comp::Name(n) => is_name(n, sys),
            },
    ensures
        piece_comps(lead + texts(c)) == c,
    decreases c.len() + lead.len(),
{
    let all = lead + texts(c);
    if c.len() == 0 {
        if lead.len() == 0 {
            assert(all =~= Seq::empty());
            assert(piece_comps(all) =~= c);
        } else {
            assert(all.drop_last() =~= lead.drop_last() + texts(c));
            lemma_comps_of_texts(c, lead.drop_last(), sys);
            assert(all.last() == lead[lead.len() - 1]);
        }
    } else {
        let h = c.drop_last();
        assert(texts(c).drop_last() =~= texts(h));
        assert(all.drop_last() =~= lead + texts(h));
        assert forall|i: int| 0 <= i < h.len() implies match #[trigger] h[i] {
            Comp::Drive(_) | Comp::Share(_, _) | Comp::Root => false,
            Comp::Cur => i == 0 && lead.len() == 0,
            Comp::Up => true,
            Comp::Name(n) => is_name(n, sys),
        } by {
            assert(h[i] == c[i]);
        }
        lemma_comps_of_texts(h, lead, sys);
        let x = c[c.len() - 1];
        assert(all.last() == piece_text(x));
        lemma_dot_text(piece_text(x));
        assert(h.push(x) =~= c);
    }
}

pub proof fn lemma_joined_start(body: Seq<Seq<char>>, sep: char)
    requires
        body.len() > 0,
    ensures
        ({
            let j = text::joined(body, sep);
            &&& j.len() >= body[0].len()
            &&& j.take(body[0].len() as int) == body[0]
            &&& j.len() > body[0].len() ==> j[body[0].len() as int] == sep
        }),
    decreases body.len(),
{
    let j = text::joined(body, sep);
    if body.len() == 1 {
        assert(j.take(body[0].len() as int) =~= body[0]);
    } else {
        let h = body.drop_last();
        lemma_joined_start(h, sep);
        let hj = text::joined(h, sep);
        assert(h[0] == body[0]);
        assert(j.take(body[0].len() as int) =~= hj.take(body[0].len() as int));
    }
}

/// The texts behind what stands in front, as they are joined and split again.
pub open spec fn body_texts(c: Seq<Comp>) -> Seq<Seq<char>> {
    texts(c.skip(anchor_len(c)))
}

spec fn behind_root(c: Seq<Comp>) -> Seq<Seq<char>> {
    if body_texts(c).len() > 0 {
        body_texts(c)
    } else {
        seq![Seq::<char>::empty()]
    }
}

proof fn lemma_tail_shape(c: Seq<Comp>, sys: System)
    requires
        well_formed(c, sys),
    ensures
        ({
            let tail = c.skip(anchor_len(c));
            forall|i: int|
                0 <= i < tail.len() ==> match #[trigger] tail[i] {
                    Comp::Drive(_) | Comp::Share(_, _) | Comp::Root => false,
                    Comp::Cur => i == 0 && !is_rooted(c),
                    Comp::Up => true,
                    Comp::Name(n) => is_name(n, sys),
                }
        }),
{
    let k = anchor_len(c);
    let tail = c.skip(k);
    assert forall|i: int| 0 <= i < tail.len() implies match #[trigger] tail[i] {
        Comp::Drive(_) | Comp::Share(_, _) | Comp::Root => false,
        Comp::Cur => i == 0 && !is_rooted(c),
        Comp::Up => true,
        Comp::Name(n) => is_name(n, sys),
    } by {
        assert(comp_ok(c, k + i, sys));
        assert(tail[i] == c[k + i]);
    }
}

proof fn lemma_body_splits(c: Seq<Comp>, sys: System)
    requires
        well_formed(c, sys),
    ensures
        ({
            let j = text::joined(body_texts(c), sep_of(sys));
            &&& parts(j, sys) == behind_root(c)
            &&& j.len() == 0 <==> body_texts(c).len() == 0
            &&& j.len() > 0 ==> !is_sep(j[0], sys) && body_texts(c)[0].len() > 0 && j[0]
                == body_texts(c)[0][0]
        }),
{
    let tail = c.skip(anchor_len(c));
    let body = body_texts(c);
    let sep = sep_of(sys);
    let j = text::joined(body, sep);
    let e = Seq::<char>::empty();
    lemma_tail_shape(c, sys);
    assert forall|i: int| 0 <= i < body.len() implies !text::has_char(#[trigger] body[i], '/')
        && !text::has_char(body[i], sep) && body[i].len() > 0 by {
        assert(body[i] == piece_text(tail[i]));
    }
    if body.len() > 0 {
        lemma_joined_start(body, sep);
        assert(j.take(body[0].len() as int) =~= body[0]);
        assert(j[0] == j.take(body[0].len() as int)[0]);
        lemma_pieces_of_joined(body, sep, sep);
    } else {
        assert(j =~= e);
        assert(text::pieces(e, '/', sep) =~= seq![e]);
    }
}

proof fn lemma_share_reads_back(c: Seq<Comp>, sys: System)
    requires
        well_formed(c, sys),
        c.len() > 0,
        c[0] is Share,
    ensures
        anchor(rendered(c, sys), sys) == c.take(anchor_len(c)),
        body_parts(rendered(c, sys), sys) == seq![Seq::<char>::empty()] + behind_root(c),
{
    let j = text::joined(body_texts(c), sep_of(sys));
    let r = rendered(c, sys);
    let behind = behind_root(c);
    let a = c[0]->Share_0;
    let b = c[0]->Share_1;
    lemma_rendered_parts(c, sys);
    lemma_body_splits(c, sys);
    assert(r.skip(2) =~= a.push('\\') + (b.push('\\') + j));
    lemma_pieces_concat(a, '\\', b.push('\\') + j, '/', '\\');
    lemma_pieces_concat(b, '\\', j, '/', '\\');
    lemma_pieces_of_plain(a, '/', '\\');
    lemma_pieces_of_plain(b, '/', '\\');
    assert(parts(r.skip(2), sys) =~= seq![a, b] + behind);
    assert(r[0] == '\\' && r[1] == '\\');
    assert(has_share(r, sys));
    assert(anchor(r, sys) =~= c.take(2));
    assert((seq![a, b] + behind).skip(2) =~= behind);
}

proof fn lemma_front_reads_back(c: Seq<Comp>, sys: System)
    requires
        well_formed(c, sys),
        !(c.len() > 0 && c[0] is Share),
    ensures
        !has_share(rendered(c, sys), sys),
        has_drive(rendered(c, sys), sys) == (c.len() > 0 && c[0] is Drive),
{
    let body = body_texts(c);
    let sep = sep_of(sys);
    let j = text::joined(body, sep);
    let r = rendered(c, sys);
    lemma_rendered_parts(c, sys);
    lemma_body_splits(c, sys);
    if c.len() > 0 && c[0] is Drive {
        assert(r[0] == c[0]->Drive_0);
        assert(r[1] == ':');
    } else if is_rooted(c) {
        assert(r =~= seq![sep] + j);
        if j.len() > 0 {
            assert(r[1] == j[0]);
        }
    } else {
        assert(r =~= j);
        if body.len() > 0 {
            assert(comp_ok(c, 0, sys));
            assert(c.skip(0)[0] == c[0]);
            assert(body[0] == piece_text(c[0]));
            lemma_joined_start(body, sep);
            if has_drive(r, sys) {
                if body[0].len() >= 2 {
                    assert(r[1] == r.take(body[0].len() as int)[1]);
                    assert(has_drive(body[0], sys));
                } else {
                    assert(r[1] == sep);
                }
            }
        }
    }
}

proof fn lemma_plain_reads_back(c: Seq<Comp>, sys: System)
    requires
        well_formed(c, sys),
        !(c.len() > 0 && c[0] is Share),
    ensures
        anchor(rendered(c, sys), sys) == c.take(anchor_len(c)),
        body_parts(rendered(c, sys), sys) == if is_rooted(c) {
            seq![Seq::<char>::empty()] + behind_root(c)
        } else {
            behind_root(c)
        },
{
    let sep = sep_of(sys);
    let j = text::joined(body_texts(c), sep);
    let r = rendered(c, sys);
    let e = Seq::<char>::empty();
    lemma_rendered_parts(c, sys);
    lemma_body_splits(c, sys);
    lemma_front_reads_back(c, sys);
    assert(after_drive(r, sys) =~= root_text(c, sys) + j);
    if is_rooted(c) {
        assert(after_drive(r, sys)[0] == sep);
        lemma_pieces_concat(e, sep, j, '/', sep);
        assert(e.push(sep) + j =~= root_text(c, sys) + j);
        assert(text::pieces(e, '/', sep) =~= seq![e]);
    } else {
        assert(root_text(c, sys) + j =~= j);
    }
    assert(anchor(r, sys) =~= c.take(anchor_len(c)));
}

/// A path that was written from its components reads back as those components.
pub proof fn law_rendered_reads_back(c: Seq<Comp>, sys: System)
    requires
        well_formed(c, sys),
    ensures
        components(rendered(c, sys), sys) == c,
{
    let tail = c.skip(anchor_len(c));
    let e = Seq::<char>::empty();
    let behind = behind_root(c);
    if c.len() > 0 && c[0] is Share {
        lemma_share_reads_back(c, sys);
    } else {
        lemma_plain_reads_back(c, sys);
    }
    lemma_tail_shape(c, sys);
    if tail.len() == 0 {
        assert(tail =~= Seq::empty());
    }
    if is_rooted(c) {
        if tail.len() > 0 {
            lemma_comps_of_texts(tail, seq![e], sys);
        } else {
            lemma_comps_of_texts(tail, seq![e, e], sys);
            assert(seq![e, e] + texts(tail) =~= seq![e] + behind);
        }
    } else if tail.len() > 0 {
        lemma_comps_of_texts(tail, Seq::empty(), sys);
        assert(Seq::<Seq<char>>::empty() + texts(tail) =~= behind);
    } else {
        lemma_comps_of_texts(tail, seq![e], sys);
        assert(seq![e] + texts(tail) =~= behind);
    }
    assert(c.take(anchor_len(c)) + tail =~= c);
}

pub proof fn lemma_pieces_are_plain(s: Seq<char>, a: char, b: char)
    ensures
        ({
            let ps = text::pieces(s, a, b);
            &&& ps.len() > 0
            &&& ps[0].len() <= s.len()
            &&& ps[0] == s.take(ps[0].len() as int)
            &&& forall|i: int|
                0 <= i < ps.len() ==> !text::has_char(#[trigger] ps[i], a) && !text::has_char(
                    ps[i],
                    b,
                )
            &&& ps[0].len() == 0 && s.len() > 0 ==> s[0] == a || s[0] == b
        }),
    decreases s.len(),
{
    let ps = text::pieces(s, a, b);
    if s.len() == 0 {
        assert(ps[0] =~= s.take(0));
    } else {
        lemma_pieces_are_plain(s.drop_last(), a, b);
        let qs = text::pieces(s.drop_last(), a, b);
        assert(s.drop_last().take(qs[0].len() as int) =~= s.take(qs[0].len() as int));
        if s.last() == a || s.last() == b {
            assert(ps[0] == qs[0]);
            assert forall|i: int| 0 <= i < ps.len() implies !text::has_char(#[trigger] ps[i], a)
                && !text::has_char(ps[i], b) by {
                if i < qs.len() {
                    assert(ps[i] == qs[i]);
                }
            }
            if s.len() == 1 {
                assert(s[0] == s.last());
            } else if ps[0].len() == 0 {
                assert(s.drop_last()[0] == s[0]);
            }
        } else {
            let n = ps.len() - 1;
            assert forall|i: int| 0 <= i < ps.len() implies !text::has_char(#[trigger] ps[i], a)
                && !text::has_char(ps[i], b) by {
                if i < n {
                    assert(ps[i] == qs[i]);
                } else {
                    assert(ps[i] == qs[n].push(s.last()));
                    assert forall|m: int| 0 <= m < ps[i].len() implies ps[i][m] != a && ps[i][m]
                        != b by {
                        if m < qs[n].len() {
                            assert(ps[i][m] == qs[n][m]);
                        }
                    }
                }
            }
            if n == 0 {
                assert(ps[0] == qs[0].push(s.last()));
                lemma_single_piece(s.drop_last(), a, b);
                assert(ps[0] =~= s.take(ps[0].len() as int));
            } else {
                assert(ps[0] == qs[0]);
                if ps[0].len() == 0 {
                    if s.len() == 1 {
                        assert(qs =~= seq![Seq::<char>::empty()]);
                    }
                    assert(s.drop_last()[0] == s[0]);
                }
            }
        }
    }
}

proof fn lemma_single_piece(s: Seq<char>, a: char, b: char)
    ensures
        text::pieces(s, a, b).len() == 1 ==> text::pieces(s, a, b)[0] == s,
    decreases s.len(),
{
    if s.len() == 0 {
        assert(text::pieces(s, a, b)[0] =~= s);
    } else {
        lemma_single_piece(s.drop_last(), a, b);
        text::lemma_pieces_nonempty(s.drop_last(), a, b);
        if text::pieces(s, a, b).len() == 1 {
            assert(text::pieces(s, a, b)[0] =~= s.drop_last().push(s.last()));
            assert(s.drop_last().push(s.last()) =~= s);
        }
    }
}

proof fn lemma_piece_comps_shape(ps: Seq<Seq<char>>, sys: System)
    requires
        forall|i: int|
            0 <= i < ps.len() ==> !text::has_char(#[trigger] ps[i], '/') && !text::has_char(
                ps[i],
                sep_of(sys),
            ),
    ensures
        ({
            let c = piece_comps(ps);
            &&& c.len() <= ps.len()
            &&& forall|i: int|
                0 <= i < c.len() ==> match #[trigger] c[i] {
                    Comp::Drive(_) | Comp::Share(_, _) | Comp::Root => false,
                    Comp::Cur => i == 0 && ps[0] == seq!['.'],
                    Comp::Up => true,
                    Comp::Name(n) => is_name(n, sys) && (i == 0 ==> ps[0].len() == 0 || n
                        == ps[0]),
                }
            &&& ps.len() > 0 && ps[0].len() > 0 ==> c.len() > 0
        }),
    decreases ps.len(),
{
    if ps.len() > 0 {
        let h = ps.drop_last();
        assert forall|i: int| 0 <= i < h.len() implies !text::has_char(#[trigger] h[i], '/')
            && !text::has_char(h[i], sep_of(sys)) by {
            assert(h[i] == ps[i]);
        }
        lemma_piece_comps_shape(h, sys);
        let hc = piece_comps(h);
        let c = piece_comps(ps);
        assert(ps.last() == ps[ps.len() - 1]);
        if h.len() > 0 {
            assert(h[0] == ps[0]);
        }
        assert forall|i: int| 0 <= i < c.len() implies match #[trigger] c[i] {
            Comp::Drive(_) | Comp::Share(_, _) | Comp::Root => false,
            Comp::Cur => i == 0 && ps[0] == seq!['.'],
            Comp::Up => true,
            Comp::Name(n) => is_name(n, sys) && (i == 0 ==> ps[0].len() == 0 || n == ps[0]),
        } by {
            if i < hc.len() {
                assert(c[i] == hc[i]);
            }
        }
    }
}

/// Reading a path gives components in order: drive or share and root in front,
/// and names without separators behind them.
pub proof fn law_components_well_formed(s: Seq<char>, sys: System)
    ensures
        well_formed(components(s, sys), sys),
        anchor_len(components(s, sys)) == anchor(s, sys).len(),
{
    let b = after_drive(s, sys);
    let ps = body_parts(s, sys);
    let c = components(s, sys);
    let a = anchor(s, sys);
    let t = piece_comps(ps);
    let shared = parts(s.skip(2), sys);
    lemma_pieces_are_plain(b, '/', sep_of(sys));
    lemma_pieces_are_plain(s.skip(2), '/', sep_of(sys));
    if has_share(s, sys) {
        assert forall|i: int| 0 <= i < ps.len() implies !text::has_char(#[trigger] ps[i], '/')
            && !text::has_char(ps[i], sep_of(sys)) by {
            if i > 0 {
                assert(ps[i] == shared[i + 1]);
            }
        }
        assert(!text::has_char(shared[0], '/') && !text::has_char(shared[1], '/'));
    }
    lemma_piece_comps_shape(ps, sys);
    if t.len() > 0 {
        assert(!is_anchor(t[0]));
        assert(c[a.len() as int] == t[0]);
    }
    if a.len() > 0 {
        assert(c[0] == a[0]);
    }
    if a.len() > 1 {
        assert(c[1] == a[1]);
    }
    assert(anchor_len(c) == a.len());
    if has_drive(s, sys) {
        lemma_upper(s[0]);
    }
    assert forall|i: int| anchor_len(c) <= i < c.len() implies #[trigger] comp_ok(c, i, sys) by {
        let x = t[i - a.len()];
        assert(c[i] == x);
        match x {
            Comp::Cur => {
                assert(ps[0][0] == '.');
                assert(!has_share(s, sys));
                assert(b[0] == b.take(ps[0].len() as int)[0]);
                if i > 0 {
                    assert(c[i - 1] == a[i - 1]);
                }
            },
            Comp::Name(n) => {
                if i == 0 {
                    if ps[0].len() == 0 {
                        assert(b.len() > 0) by {
                            if b.len() == 0 {
                                assert(ps =~= seq![Seq::<char>::empty()]);
                                assert(piece_comps(ps.drop_last()) =~= Seq::empty());
                            }
                        }
                    } else if has_drive(n, sys) {
                        assert(b.take(ps[0].len() as int)[0] == s[0]);
                        assert(b.take(ps[0].len() as int)[1] == s[1]);
                    }
                }
            },
            _ => {},
        }
    }
}

proof fn lemma_upper(c: char)
    requires
        text::is_ascii_letter(c),
    ensures
        text::is_ascii_letter(text::upper_of(c)),
        text::upper_of(text::upper_of(c)) == text::upper_of(c),
{
}

// ---------------------------------------------------------------------------
// Paths below a directory
// ---------------------------------------------------------------------------

/// The drive of a path, or its server and share; nothing where it has neither.
pub open spec fn volume(s: Seq<char>, sys: System) -> Seq<char> {
    if has_drive(s, sys) {
        s.take(2)
    } else if has_share(s, sys) {
        let ps = parts(s.skip(2), sys);
        share_text(ps[0], ps[1])
    } else {
        Seq::empty()
    }
}

/// `rel` appended to `dir`; where `rel` is absolute it takes the place of
/// `dir`, but for the drive or the share.
pub open spec fn joined_path(dir: Seq<char>, rel: Seq<char>, sys: System) -> Seq<char> {
    if has_drive(rel, sys) || has_share(rel, sys) {
        rel
    } else if begins_with_sep(rel, sys) {
        volume(dir, sys) + rel
    } else if dir.len() == 0 || is_sep(dir.last(), sys) || (dir.len() == 2 && has_drive(dir, sys)) {
        dir + rel
    } else {
        dir.push(sep_of(sys)) + rel
    }
}

fn find_volume(s: &str, sys: System) -> (r: String)
    ensures
        r@ == volume(s@, sys),
{
    let v = chars_of(s);
    let drive = match sys {
        System::Unix => false,
        System::Windows => starts_with_drive(&v),
    };
    if drive {
        let front = string_range(&v, 0, 2);
        assert(v@.subrange(0, 2) =~= s@.take(2));
        return front;
    }
    match share_parts(&v, sys) {
        Some(ps) => {
            let ghost all = ps.deep_view();
            let mut out = String::new();
            out.push('\\');
            out.push('\\');
            out.append(ps[0].as_str());
            out.push('\\');
            out.append(ps[1].as_str());
            assert(out@ =~= share_text(all[0], all[1]));
            out
        },
        None => String::new(),
    }
}

pub fn join_path(dir: &str, rel: &str, sys: System) -> (r: String)
    ensures
        r@ == joined_path(dir@, rel@, sys),
{
    let d = chars_of(dir);
    let q = chars_of(rel);
    let windows = match sys {
        System::Unix => false,
        System::Windows => true,
    };
    if windows && starts_with_drive(&q) {
        return rel.to_owned();
    }
    match share_parts(&q, sys) {
        Some(_) => {
            return rel.to_owned();
        },
        None => {},
    }
    if q.len() > 0 && separates(q[0], sys) {
        let front = find_volume(dir, sys);
        return cat(front.as_str(), rel);
    }
    if d.len() == 0 || separates(d[d.len() - 1], sys) || (d.len() == 2 && windows
        && starts_with_drive(&d)) {
        return cat(dir, rel);
    }
    let mut out = dir.to_owned();
    out.push(separator(sys));
    out.append(rel);
    out
}

/// A relative path that stays where it is put: not empty, without drive, without
/// root, and without `..`. A drive letter in front is refused on every system.
pub open spec fn is_safe_relative(s: Seq<char>, sys: System) -> bool {
    &&& s.len() > 0
    &&& !drive_in_front(s)
    &&& !begins_with_sep(s, sys)
    &&& !parts(s, sys).contains(seq!['.', '.'])
}

pub fn safe_relative(s: &str, sys: System) -> (r: bool)
    ensures
        r == is_safe_relative(s@, sys),
{
    let v = chars_of(s);
    if v.len() == 0 || starts_with_drive(&v) || separates(v[0], sys) {
        return false;
    }
    let ps = split(&v, 0, '/', separator(sys));
    let ghost all = ps.deep_view();
    assert(v@.skip(0) =~= v@);
    let mut i: usize = 0;
    while i < ps.len()
        invariant
            i <= ps@.len(),
            all == ps.deep_view(),
            all == parts(s@, sys),
            forall|k: int| 0 <= k < i ==> all[k] != seq!['.', '.'],
        decreases ps@.len() - i,
    {
        let p = chars_of(ps[i].as_str());
        proof {
            lemma_dot_text(p@);
            assert(all[i as int] == p@);
        }
        if p.len() == 2 && p[0] == '.' && p[1] == '.' {
            return false;
        }
        i = i + 1;
    }
    true
}

/// What the pieces stand for behind other pieces.
pub open spec fn later_comps(ps: Seq<Seq<char>>) -> Seq<Comp>
    decreases ps.len(),
{
    if ps.len() == 0 {
        Seq::empty()
    } else {
        let head = later_comps(ps.drop_last());
        let p = ps.last();
        if p.len() == 0 || p == seq!['.'] {
            head
        } else if p == seq!['.', '.'] {
            head.push(Comp::Up)
        } else {
            head.push(Comp::Name(p))
        }
    }
}

proof fn lemma_piece_comps_concat(p: Seq<Seq<char>>, r: Seq<Seq<char>>)
    requires
        p.len() > 0,
    ensures
        piece_comps(p + r) == piece_comps(p) + later_comps(r),
    decreases r.len(),
{
    if r.len() == 0 {
        assert(p + r =~= p);
        assert(piece_comps(p) + later_comps(r) =~= piece_comps(p));
    } else {
        assert((p + r).drop_last() =~= p + r.drop_last());
        assert((p + r).last() == r.last());
        lemma_piece_comps_concat(p, r.drop_last());
        assert(piece_comps(p + r) =~= piece_comps(p) + later_comps(r));
    }
}

proof fn lemma_later_comps_are_names(r: Seq<Seq<char>>)
    requires
        !r.contains(seq!['.', '.']),
    ensures
        forall|i: int| 0 <= i < later_comps(r).len() ==> (#[trigger] later_comps(r)[i]) is Name,
    decreases r.len(),
{
    if r.len() > 0 {
        let h = r.drop_last();
        assert(!h.contains(seq!['.', '.'])) by {
            if h.contains(seq!['.', '.']) {
                let i = choose|i: int| 0 <= i < h.len() && h[i] == seq!['.', '.'];
                assert(r[i] == seq!['.', '.']);
            }
        }
        lemma_later_comps_are_names(h);
        assert(r.last() == r[r.len() - 1]);
        let c = later_comps(r);
        let hc = later_comps(h);
        assert forall|i: int| 0 <= i < c.len() implies (#[trigger] c[i]) is Name by {
            if i < hc.len() {
                assert(c[i] == hc[i]);
            }
        }
    }
}

/// Appending a safe relative path never leaves the directory: the components
/// of the directory come first, and behind them stand only names (and `.`,
/// where the directory is empty). Left out are directories like `\\server`,
/// which name no share until something is appended.
pub proof fn law_safe_relative_stays_below(dir: Seq<char>, rel: Seq<char>, sys: System)
    requires
        is_safe_relative(rel, sys),
        has_share(joined_path(dir, rel, sys), sys) ==> has_share(dir, sys),
    ensures
        ({
            let c = components(joined_path(dir, rel, sys), sys);
            let d = components(dir, sys);
            &&& d.len() <= c.len()
            &&& c.take(d.len() as int) == d
            &&& forall|i: int|
                d.len() <= i < c.len() ==> (#[trigger] c[i]) is Name || c[i] is Cur
            &&& c == d + later_comps(parts(rel, sys)) || c == d + piece_comps(parts(rel, sys))
        }),
{
    let j = joined_path(dir, rel, sys);
    let other = sep_of(sys);
    let c = components(j, sys);
    let d = components(dir, sys);
    let r = parts(rel, sys);
    let e = Seq::<char>::empty();
    assert(!has_share(rel, sys));
    if has_share(dir, sys) {
        let b = dir.skip(2);
        let q = parts(b, sys);
        assert(b.len() > 0) by {
            if b.len() == 0 {
                assert(q =~= seq![e]);
            }
        }
        let sep = b.last();
        assert(j[0] == dir[0] && j[1] == dir[1]);
        lemma_later_comps_are_names(r);
        let p = if is_sep(sep, sys) {
            parts(b.drop_last(), sys)
        } else {
            q
        };
        if is_sep(sep, sys) {
            let head = b.drop_last();
            assert(head.push(sep) =~= b);
            assert(j.skip(2) =~= head.push(sep) + rel);
            lemma_pieces_concat(head, sep, rel, '/', other);
            assert(q =~= p.push(e));
        } else {
            assert(j.skip(2) =~= b.push(other) + rel);
            lemma_pieces_concat(b, other, rel, '/', other);
        }
        assert(p.len() >= 2);
        assert(parts(j.skip(2), sys) == p + r);
        assert((p + r)[0] == q[0] && (p + r)[1] == q[1]);
        assert(has_share(j, sys));
        assert(anchor(j, sys) =~= anchor(dir, sys));
        let front = seq![e] + p.skip(2);
        assert(body_parts(j, sys) =~= front + r);
        lemma_piece_comps_concat(front, r);
        if is_sep(sep, sys) {
            assert(body_parts(dir, sys) =~= front.push(e));
            assert(front.push(e).drop_last() =~= front);
        } else {
            assert(body_parts(dir, sys) =~= front);
        }
        assert(piece_comps(body_parts(dir, sys)) == piece_comps(front));
        let later = later_comps(r);
        assert(c =~= d + later);
        assert(c.take(d.len() as int) =~= d);
        assert forall|i: int| d.len() <= i < c.len() implies (#[trigger] c[i]) is Name
            || c[i] is Cur by {
            assert(c[i] == later[i - d.len()]);
        }
    } else {
        let b = after_drive(dir, sys);
        assert(has_drive(j, sys) == has_drive(dir, sys)) by {
            if has_drive(dir, sys) {
                assert(j[0] == dir[0] && j[1] == dir[1]);
            } else if dir.len() == 0 {
                assert(j =~= rel);
            } else if dir.len() == 1 {
                assert(j[0] == dir[0]);
                if !is_sep(dir.last(), sys) {
                    assert(j[1] == other);
                }
            } else {
                assert(j[0] == dir[0] && j[1] == dir[1]);
            }
        }
        if b.len() == 0 {
            assert(after_drive(j, sys) =~= rel);
            assert(anchor(j, sys) =~= anchor(dir, sys));
            lemma_pieces_are_plain(rel, '/', other);
            lemma_piece_comps_shape(r, sys);
            let t = piece_comps(r);
            let one = seq![e];
            assert(parts(b, sys) =~= one);
            assert(one.drop_last() =~= Seq::empty());
            reveal_with_fuel(piece_comps, 2);
            assert(piece_comps(one) =~= Seq::empty());
            assert(d =~= anchor(dir, sys));
            lemma_no_up_in_comps(r);
            assert(c =~= d + t);
            assert(c.take(d.len() as int) =~= d);
            assert forall|i: int| d.len() <= i < c.len() implies (#[trigger] c[i]) is Name
                || c[i] is Cur by {
                assert(c[i] == t[i - d.len()]);
            }
        } else {
            assert(after_drive(j, sys)[0] == b[0]);
            assert(anchor(j, sys) =~= anchor(dir, sys));
            let sep = b.last();
            let q = parts(b, sys);
            text::lemma_pieces_nonempty(b, '/', other);
            let later = later_comps(r);
            lemma_later_comps_are_names(r);
            if is_sep(sep, sys) {
                let head = b.drop_last();
                assert(head.push(sep) =~= b);
                assert(after_drive(j, sys) =~= head.push(sep) + rel);
                lemma_pieces_concat(head, sep, rel, '/', other);
                let p = parts(head, sys);
                text::lemma_pieces_nonempty(head, '/', other);
                assert(q =~= p.push(e));
                assert(q.drop_last() =~= p);
                lemma_piece_comps_concat(p, r);
                assert(piece_comps(q) == piece_comps(p));
            } else {
                assert(after_drive(j, sys) =~= b.push(other) + rel);
                lemma_pieces_concat(b, other, rel, '/', other);
                lemma_piece_comps_concat(q, r);
            }
            assert(c =~= d + later);
            assert(c.take(d.len() as int) =~= d);
            assert forall|i: int| d.len() <= i < c.len() implies (#[trigger] c[i]) is Name
                || c[i] is Cur by {
                assert(c[i] == later[i - d.len()]);
            }
        }
    }
}

proof fn lemma_no_up_in_comps(r: Seq<Seq<char>>)
    requires
        !r.contains(seq!['.', '.']),
    ensures
        forall|i: int| 0 <= i < piece_comps(r).len() ==> !((#[trigger] piece_comps(r)[i]) is Up),
    decreases r.len(),
{
    if r.len() > 0 {
        let h = r.drop_last();
        assert(!h.contains(seq!['.', '.'])) by {
            if h.contains(seq!['.', '.']) {
                let i = choose|i: int| 0 <= i < h.len() && h[i] == seq!['.', '.'];
                assert(r[i] == seq!['.', '.']);
            }
        }
        lemma_no_up_in_comps(h);
        assert(r.last() == r[r.len() - 1]);
        let c = piece_comps(r);
        let hc = piece_comps(h);
        assert forall|i: int| 0 <= i < c.len() implies !((#[trigger] c[i]) is Up) by {
            if i < hc.len() {
                assert(c[i] == hc[i]);
            }
        }
    }
}

// ---------------------------------------------------------------------------
// Names
// ---------------------------------------------------------------------------

/// The file name: the last component, where it is a name.
pub open spec fn name_of(c: Seq<Comp>) -> Option<Seq<char>> {
    if c.len() > 0 {
        match c.last() {
            Comp::Name(n) => Some(n),
            _ => None,
        }
    } else {
        None
    }
}

fn last_name(c: &Vec<Component>) -> (r: Option<String>)
    ensures
        r.deep_view() == name_of(c.deep_view()),
{
    if c.len() == 0 {
        return None;
    }
    match &c[c.len() - 1] {
        Component::Name(n) => Some(n.clone()),
        _ => None,
    }
}

pub fn file_name(p: &str, sys: System) -> (r: Option<String>)
    ensures
        r.deep_view() == name_of(components(p@, sys)),
{
    last_name(&parse(p, sys))
}

/// Where the extension of a file name begins: its last dot, unless that is
/// the first character.
pub open spec fn dot_index(n: Seq<char>) -> Option<int> {
    if exists|i: int| is_last_dot(n, i) {
        Some(choose|i: int| is_last_dot(n, i))
    } else {
        None
    }
}

pub open spec fn is_last_dot(n: Seq<char>, i: int) -> bool {
    &&& 0 < i < n.len()
    &&& n[i] == '.'
    &&& forall|j: int| i < j < n.len() ==> n[j] != '.'
}

/// A file name without its extension.
pub open spec fn stem_of(n: Seq<char>) -> Seq<char> {
    match dot_index(n) {
        Some(i) => n.take(i),
        None => n,
    }
}

pub open spec fn extension_of(n: Seq<char>) -> Option<Seq<char>> {
    match dot_index(n) {
        Some(i) => Some(n.skip(i + 1)),
        None => None,
    }
}

fn find_dot(v: &Vec<char>) -> (r: Option<usize>)
    ensures
        match r {
            Some(i) => dot_index(v@) == Some(i as int) && i < v@.len(),
            None => dot_index(v@) is None,
        },
{
    let mut i: usize = v.len();
    while i > 1
        invariant
            i <= v@.len(),
            forall|j: int| i <= j < v@.len() ==> v@[j] != '.',
        decreases i,
    {
        if v[i - 1] == '.' {
            proof {
                assert(is_last_dot(v@, i - 1));
                let k = choose|k: int| is_last_dot(v@, k);
                assert(k == i - 1);
            }
            return Some(i - 1);
        }
        i = i - 1;
    }
    proof {
        if exists|k: int| is_last_dot(v@, k) {
            let k = choose|k: int| is_last_dot(v@, k);
            assert(v@[k] != '.');
        }
    }
    None
}

fn split_name(n: &str) -> (r: (String, Option<String>))
    ensures
        r.0@ == stem_of(n@),
        r.1.deep_view() == extension_of(n@),
{
    let v = chars_of(n);
    let end: usize = v.len();
    match find_dot(&v) {
        Some(i) => {
            let stem = string_range(&v, 0, i);
            let ext = string_range(&v, i + 1, end);
            assert(v@.subrange(0, i as int) =~= n@.take(i as int));
            assert(v@.subrange(i + 1, v@.len() as int) =~= n@.skip(i + 1));
            (stem, Some(ext))
        },
        None => (n.to_owned(), None),
    }
}

/// `name.ext` numbered: `name (k).ext`.
pub open spec fn numbered(n: Seq<char>, k: nat) -> Seq<char> {
    let head = stem_of(n) + " ("@ + text::decimal(k) + ")"@;
    match extension_of(n) {
        Some(e) => head + "."@ + e,
        None => head,
    }
}

fn number_name(n: &str, k: u64) -> (r: String)
    ensures
        r@ == numbered(n@, k as nat),
{
    let (stem, ext) = split_name(n);
    let count = to_decimal(k);
    let mut out = stem;
    out.append(" (");
    out.append(count.as_str());
    out.append(")");
    match ext {
        Some(e) => {
            out.append(".");
            out.append(e.as_str());
        },
        None => {},
    }
    out
}

/// The components with the file name replaced, or added where there is none.
pub open spec fn with_name(c: Seq<Comp>, n: Seq<char>) -> Seq<Comp> {
    if name_of(c) is Some {
        c.drop_last().push(Comp::Name(n))
    } else {
        c.push(Comp::Name(n))
    }
}

fn set_name(c: &mut Vec<Component>, n: String)
    ensures
        final(c).deep_view() == with_name(old(c).deep_view(), n@),
{
    let ghost before = c.deep_view();
    let had = match last_name(c) {
        Some(_) => true,
        None => false,
    };
    if had {
        c.pop();
        assert(c.deep_view() =~= before.drop_last());
    }
    let ghost mid = c.deep_view();
    c.push(Component::Name(n));
    assert(c.deep_view() =~= mid.push(Comp::Name(n@)));
}

/// The path that stands in for `p` when its file name is taken: the `k`-th
/// numbered name beside it. A path without file name goes by `fallback`.
pub open spec fn numbered_path(
    p: Seq<char>,
    fallback: Seq<char>,
    k: nat,
    sys: System,
) -> Seq<char> {
    let c = components(p, sys);
    let n = match name_of(c) {
        Some(n) => n,
        None => fallback,
    };
    rendered(with_name(c, numbered(n, k)), sys)
}

pub fn number_path(p: &str, fallback: &str, k: u64, sys: System) -> (r: String)
    ensures
        r@ == numbered_path(p@, fallback@, k as nat, sys),
{
    let mut c = parse(p, sys);
    let name = match last_name(&c) {
        Some(n) => n,
        None => fallback.to_owned(),
    };
    let n = number_name(name.as_str(), k);
    set_name(&mut c, n);
    render_all(&c, sys)
}

/// The path with the extension of its file name replaced; a path without
/// file name stays as it is.
pub open spec fn with_extension_text(p: Seq<char>, ext: Seq<char>, sys: System) -> Seq<char> {
    let c = components(p, sys);
    match name_of(c) {
        Some(n) => rendered(with_name(c, stem_of(n) + "."@ + ext), sys),
        None => p,
    }
}

pub fn with_extension(p: &str, ext: &str, sys: System) -> (r: String)
    ensures
        r@ == with_extension_text(p@, ext@, sys),
{
    let mut c = parse(p, sys);
    match last_name(&c) {
        Some(n) => {
            let (stem, _) = split_name(n.as_str());
            let name = cat3(stem.as_str(), ".", ext);
            set_name(&mut c, name);
            render_all(&c, sys)
        },
        None => p.to_owned(),
    }
}

// ---------------------------------------------------------------------------
// Directories
// ---------------------------------------------------------------------------

/// The `k`-th directory above; the path itself for 0. There is nothing above
/// drive, share and root, and above a relative path only the empty one.
pub open spec fn ancestor_comps(c: Seq<Comp>, k: int) -> Option<Seq<Comp>> {
    if 0 <= k <= c.len() - anchor_len(c) {
        Some(c.take(c.len() - k))
    } else {
        None
    }
}

pub open spec fn ancestor_text(p: Seq<char>, k: int, sys: System) -> Option<Seq<char>> {
    match ancestor_comps(components(p, sys), k) {
        Some(c) => Some(rendered(c, sys)),
        None => None,
    }
}

fn anchor_count(c: &Vec<Component>) -> (r: usize)
    ensures
        r == anchor_len(c.deep_view()),
        r <= c@.len(),
{
    let ghost cv = c.deep_view();
    if c.len() == 0 {
        return 0;
    }
    let first: usize = match &c[0] {
        Component::Drive(_) | Component::Share(_, _) | Component::Root => 1,
        _ => 0,
    };
    assert(cv[0] == c@[0].deep_view());
    if first == 0 {
        return 0;
    }
    if c.len() == 1 {
        return 1;
    }
    assert(cv[1] == c@[1].deep_view());
    let prefixed = match &c[0] {
        Component::Drive(_) | Component::Share(_, _) => true,
        _ => false,
    };
    match &c[1] {
        Component::Root => if prefixed {
            2
        } else {
            1
        },
        _ => 1,
    }
}

pub fn ancestor(p: &str, k: usize, sys: System) -> (r: Option<String>)
    ensures
        r.deep_view() == ancestor_text(p@, k as int, sys),
{
    let c = parse(p, sys);
    let a = anchor_count(&c);
    if k <= c.len() - a {
        Some(render(&c, c.len() - k, sys))
    } else {
        None
    }
}

pub fn parent(p: &str, sys: System) -> (r: Option<String>)
    ensures
        r.deep_view() == ancestor_text(p@, 1, sys),
{
    ancestor(p, 1, sys)
}

/// Whether a path lies in a directory or is that directory.
pub open spec fn lies_in(p: Seq<char>, dir: Seq<char>, sys: System) -> bool {
    components(dir, sys).is_prefix_of(components(p, sys))
}

/// How many leading components two paths share.
pub open spec fn shared_len(a: Seq<Comp>, b: Seq<Comp>) -> int
    decreases a.len(),
{
    if a.len() == 0 || b.len() == 0 || a[0] != b[0] {
        0
    } else {
        1 + shared_len(a.skip(1), b.skip(1))
    }
}

proof fn lemma_shared_len(a: Seq<Comp>, b: Seq<Comp>, n: int)
    requires
        0 <= n <= a.len(),
        n <= b.len(),
        forall|i: int| 0 <= i < n ==> a[i] == b[i],
        n == a.len() || n == b.len() || a[n] != b[n],
    ensures
        shared_len(a, b) == n,
    decreases n,
{
    if n > 0 {
        let a1 = a.skip(1);
        let b1 = b.skip(1);
        assert forall|i: int| 0 <= i < n - 1 implies a1[i] == b1[i] by {
            assert(a[i + 1] == b[i + 1]);
        }
        lemma_shared_len(a1, b1, n - 1);
        assert(a[0] == b[0]);
    }
}

/// The shared components are the longest common prefix.
pub proof fn law_shared_is_longest_prefix(a: Seq<Comp>, b: Seq<Comp>)
    ensures
        0 <= shared_len(a, b) <= a.len(),
        shared_len(a, b) <= b.len(),
        a.take(shared_len(a, b)) == b.take(shared_len(a, b)),
        forall|n: int|
            shared_len(a, b) < n <= a.len() && n <= b.len() ==> #[trigger] a.take(n) != b.take(n),
    decreases a.len(),
{
    if a.len() == 0 || b.len() == 0 || a[0] != b[0] {
        assert(a.take(0) =~= b.take(0));
        assert forall|n: int| 0 < n <= a.len() && n <= b.len() implies #[trigger] a.take(n)
            != b.take(n) by {
            assert(a.take(n)[0] == a[0]);
            assert(b.take(n)[0] == b[0]);
        }
    } else {
        let a1 = a.skip(1);
        let b1 = b.skip(1);
        law_shared_is_longest_prefix(a1, b1);
        let s = shared_len(a1, b1);
        assert forall|i: int| 0 <= i < s + 1 implies a[i] == b[i] by {
            if i > 0 {
                assert(a1.take(s)[i - 1] == b1.take(s)[i - 1]);
            }
        }
        assert(a.take(s + 1) =~= b.take(s + 1));
        assert forall|n: int| s + 1 < n <= a.len() && n <= b.len() implies #[trigger] a.take(n)
            != b.take(n) by {
            assert(a1.take(n - 1) != b1.take(n - 1));
            if a.take(n) == b.take(n) {
                let x = a1.take(n - 1);
                let y = b1.take(n - 1);
                assert forall|i: int| 0 <= i < n - 1 implies x[i] == y[i] by {
                    assert(a.take(n)[i + 1] == b.take(n)[i + 1]);
                }
                assert(x =~= y);
            }
        }
    }
}

pub fn count_shared(a: &Vec<Component>, b: &Vec<Component>) -> (r: usize)
    ensures
        r == shared_len(a.deep_view(), b.deep_view()),
        r <= a@.len(),
        r <= b@.len(),
{
    let ghost av = a.deep_view();
    let ghost bv = b.deep_view();
    let mut i: usize = 0;
    while i < a.len() && i < b.len()
        invariant
            av == a.deep_view(),
            bv == b.deep_view(),
            i <= a@.len(),
            i <= b@.len(),
            forall|k: int| 0 <= k < i ==> av[k] == bv[k],
        decreases a@.len() - i,
    {
        if !a[i].same(&b[i]) {
            proof {
                assert(av[i as int] != bv[i as int]);
                lemma_shared_len(av, bv, i as int);
            }
            return i;
        }
        i = i + 1;
    }
    proof {
        lemma_shared_len(av, bv, i as int);
    }
    i
}

proof fn lemma_prefix_is_shared(a: Seq<Comp>, b: Seq<Comp>)
    ensures
        a.is_prefix_of(b) <==> shared_len(a, b) == a.len(),
{
    law_shared_is_longest_prefix(a, b);
    if a.is_prefix_of(b) {
        assert(a.take(a.len() as int) =~= a);
        assert(b.take(a.len() as int) =~= a);
        if shared_len(a, b) < a.len() {
            assert(a.take(a.len() as int) == b.take(a.len() as int));
        }
    }
    if shared_len(a, b) == a.len() {
        assert(a.take(a.len() as int) =~= a);
        assert(a =~= b.subrange(0, a.len() as int));
    }
}

pub fn starts_with(p: &str, dir: &str, sys: System) -> (r: bool)
    ensures
        r == lies_in(p@, dir@, sys),
{
    let c = parse(p, sys);
    let d = parse(dir, sys);
    proof {
        lemma_prefix_is_shared(d.deep_view(), c.deep_view());
    }
    count_shared(&d, &c) == d.len()
}

/// What is left of a path below a directory.
pub open spec fn below(p: Seq<char>, dir: Seq<char>, sys: System) -> Option<Seq<char>> {
    if lies_in(p, dir, sys) {
        Some(rendered(components(p, sys).skip(components(dir, sys).len() as int), sys))
    } else {
        None
    }
}

pub fn strip_prefix(p: &str, dir: &str, sys: System) -> (r: Option<String>)
    ensures
        r.deep_view() == below(p@, dir@, sys),
{
    let c = parse(p, sys);
    let d = parse(dir, sys);
    proof {
        lemma_prefix_is_shared(d.deep_view(), c.deep_view());
    }
    if count_shared(&d, &c) != d.len() {
        return None;
    }
    let mut rest: Vec<Component> = Vec::new();
    let mut i: usize = d.len();
    let ghost cv = c.deep_view();
    while i < c.len()
        invariant
            cv == c.deep_view(),
            d@.len() <= i <= c@.len(),
            rest.deep_view() =~= cv.subrange(d@.len() as int, i as int),
        decreases c@.len() - i,
    {
        let ghost before = rest.deep_view();
        rest.push(c[i].clone());
        assert(rest.deep_view() =~= before.push(cv[i as int]));
        i = i + 1;
    }
    assert(rest.deep_view() =~= cv.skip(d@.len() as int));
    Some(render_all(&rest, sys))
}

/// Whether two lists of components are the same path.
pub fn same_components(a: &Vec<Component>, b: &Vec<Component>) -> (r: bool)
    ensures
        r == (a.deep_view() == b.deep_view()),
{
    let n = count_shared(a, b);
    proof {
        law_shared_is_longest_prefix(a.deep_view(), b.deep_view());
        let x = a.deep_view();
        let y = b.deep_view();
        if n == x.len() && n == y.len() {
            assert(x.take(n as int) =~= x);
            assert(y.take(n as int) =~= y);
        }
        if x == y {
            lemma_shared_len(x, y, x.len() as int);
        }
    }
    n == a.len() && n == b.len()
}

/// The directory above, as text.
pub fn above(c: &Vec<Component>, sys: System) -> (r: Option<String>)
    ensures
        r.deep_view() == (match ancestor_comps(c.deep_view(), 1) {
            Some(d) => Some(rendered(d, sys)),
            None => None,
        }),
{
    let a = anchor_count(c);
    if 1 <= c.len() - a {
        Some(render(c, c.len() - 1, sys))
    } else {
        None
    }
}

// ---------------------------------------------------------------------------
// Numbered names stay where they are
// ---------------------------------------------------------------------------

proof fn lemma_no_char_concat(a: Seq<char>, b: Seq<char>, c: char)
    requires
        !text::has_char(a, c),
        !text::has_char(b, c),
    ensures
        !text::has_char(a + b, c),
{
    let s = a + b;
    assert forall|i: int| 0 <= i < s.len() implies s[i] != c by {
        if i < a.len() {
            assert(s[i] == a[i]);
        } else {
            assert(s[i] == b[i - a.len()]);
        }
    }
}

proof fn lemma_decimal_is_plain(n: nat, c: char)
    requires
        c == '/' || c == '\\',
    ensures
        !text::has_char(text::decimal(n), c),
        text::decimal(n).len() > 0,
    decreases n,
{
    if n >= 10 {
        lemma_decimal_is_plain(n / 10, c);
        let h = text::decimal(n / 10);
        let s = text::decimal(n);
        assert forall|i: int| 0 <= i < s.len() implies s[i] != c by {
            if i < h.len() {
                assert(s[i] == h[i]);
            }
        }
    }
}

proof fn lemma_part_is_plain(n: Seq<char>, c: char)
    requires
        !text::has_char(n, c),
    ensures
        !text::has_char(stem_of(n), c),
        extension_of(n) matches Some(e) ==> !text::has_char(e, c),
{
    match dot_index(n) {
        Some(i) => {
            assert(is_last_dot(n, i));
            let s = stem_of(n);
            assert forall|k: int| 0 <= k < s.len() implies s[k] != c by {
                assert(s[k] == n[k]);
            }
            let e = n.skip(i + 1);
            assert forall|k: int| 0 <= k < e.len() implies e[k] != c by {
                assert(e[k] == n[i + 1 + k]);
            }
        },
        None => {},
    }
}

proof fn lemma_numbered_is_name(n: Seq<char>, k: nat, sys: System)
    requires
        is_name(n, sys),
    ensures
        is_name(numbered(n, k), sys),
        !has_drive(n, sys) ==> !has_drive(numbered(n, k), sys),
{
    reveal_strlit(" (");
    reveal_strlit(")");
    reveal_strlit(".");
    let stem = stem_of(n);
    let s = numbered(n, k);
    match dot_index(n) {
        Some(i) => {
            assert(is_last_dot(n, i));
        },
        None => {},
    }
    assert(stem.len() > 0);
    assert(stem =~= n.take(stem.len() as int));
    let head = stem + " ("@ + text::decimal(k) + ")"@;
    assert forall|c: char| c == '/' || c == sep_of(sys) implies !text::has_char(
        s,
        c,
    ) by {
        lemma_part_is_plain(n, c);
        lemma_decimal_is_plain(k, c);
        assert(!text::has_char(" ("@, c));
        assert(!text::has_char(")"@, c));
        assert(!text::has_char("."@, c));
        lemma_no_char_concat(stem, " ("@, c);
        lemma_no_char_concat(stem + " ("@, text::decimal(k), c);
        lemma_no_char_concat(stem + " ("@ + text::decimal(k), ")"@, c);
        match extension_of(n) {
            Some(e) => {
                lemma_no_char_concat(head, "."@, c);
                lemma_no_char_concat(head + "."@, e, c);
            },
            None => {},
        }
    }
    lemma_decimal_is_plain(k, '/');
    assert(s.len() >= 4);
    assert(s[0] == n[0]);
    if stem.len() > 1 {
        assert(s[1] == n[1]);
    } else {
        assert(s[1] == ' ');
    }
}

/// The path that stands in for a path whose name is taken lies beside it, under
/// the numbered name.
pub proof fn law_numbered_path_is_beside(p: Seq<char>, fallback: Seq<char>, k: nat, sys: System)
    requires
        name_of(components(p, sys)) is Some,
    ensures
        components(numbered_path(p, fallback, k, sys), sys) == components(
            p,
            sys,
        ).drop_last().push(Comp::Name(numbered(name_of(components(p, sys))->Some_0, k))),
{
    let c = components(p, sys);
    let n = name_of(c)->Some_0;
    law_components_well_formed(p, sys);
    assert(c[c.len() - 1] == Comp::Name(n));
    assert(c.len() - 1 >= anchor_len(c));
    assert(comp_ok(c, c.len() - 1, sys));
    lemma_numbered_is_name(n, k, sys);
    let m = numbered(n, k);
    let w = with_name(c, m);
    assert(anchor_len(w) == anchor_len(c));
    assert(well_formed(w, sys)) by {
        assert(comp_ok(c, c.len() - 1, sys));
        assert forall|i: int| anchor_len(w) <= i < w.len() implies #[trigger] comp_ok(
            w,
            i,
            sys,
        ) by {
            assert(comp_ok(c, i, sys));
            if i < c.len() - 1 {
                assert(w[i] == c[i]);
                if i > 0 {
                    assert(w[i - 1] == c[i - 1]);
                }
            }
        }
    }
    law_rendered_reads_back(w, sys);
}

/// A number goes between name and extension.
pub proof fn law_number_goes_before_the_extension(stem: Seq<char>, ext: Seq<char>, k: nat)
    requires
        stem.len() > 0,
        !text::has_char(ext, '.'),
    ensures
        numbered(stem.push('.') + ext, k) == stem + " ("@ + text::decimal(k) + ")"@ + "."@ + ext,
        !text::has_char(stem, '.') ==> numbered(stem, k) == stem + " ("@ + text::decimal(k) + ")"@,
{
    let n = stem.push('.') + ext;
    let i = stem.len() as int;
    assert forall|j: int| i < j < n.len() implies n[j] != '.' by {
        assert(n[j] == ext[j - i - 1]);
    }
    assert(is_last_dot(n, i));
    let d = choose|d: int| is_last_dot(n, d);
    assert(is_last_dot(n, d));
    assert(d == i);
    assert(n.take(i) =~= stem);
    assert(n.skip(i + 1) =~= ext);
    if !text::has_char(stem, '.') {
        assert forall|d: int| !is_last_dot(stem, d) by {}
    }
}

/// No two numbers give the same name.
pub proof fn law_numbered_names_differ(n: Seq<char>, a: nat, b: nat)
    requires
        a != b,
    ensures
        numbered(n, a) != numbered(n, b),
{
    reveal_strlit(" (");
    reveal_strlit(")");
    reveal_strlit(".");
    let x = numbered(n, a);
    let y = numbered(n, b);
    let da = text::decimal(a);
    let db = text::decimal(b);
    let s = stem_of(n);
    let tail: int = match extension_of(n) {
        Some(e) => e.len() as int + 2,
        None => 1,
    };
    if x == y {
        assert(da =~= x.subrange(s.len() as int + 2, x.len() - tail));
        assert(db =~= y.subrange(s.len() as int + 2, y.len() - tail));
        crate::engine::law_numbers_are_told_apart(a, b);
    }
}

/// The paths that stand in for a path whose name is taken lie in the same
/// directory.
pub proof fn law_numbered_stays_below(
    dir: Seq<char>,
    p: Seq<char>,
    fallback: Seq<char>,
    k: nat,
    sys: System,
)
    requires
        lies_in(p, dir, sys),
        components(p, sys).len() > components(dir, sys).len(),
        name_of(components(p, sys)) is Some,
    ensures
        lies_in(numbered_path(p, fallback, k, sys), dir, sys),
        components(numbered_path(p, fallback, k, sys), sys).len() == components(p, sys).len(),
{
    let c = components(p, sys);
    let d = components(dir, sys);
    law_numbered_path_is_beside(p, fallback, k, sys);
    let w = components(numbered_path(p, fallback, k, sys), sys);
    assert(d =~= w.subrange(0, d.len() as int)) by {
        assert(d =~= c.subrange(0, d.len() as int));
        assert forall|i: int| 0 <= i < d.len() implies d[i] == w[i] by {
            assert(d[i] == c.subrange(0, d.len() as int)[i]);
        }
    }
}

/// The directory above a path is the path without its last components.
pub proof fn law_directory_above(p: Seq<char>, k: int, sys: System)
    requires
        ancestor_text(p, k, sys) is Some,
    ensures
        0 <= k <= components(p, sys).len(),
        components(ancestor_text(p, k, sys)->Some_0, sys) == components(p, sys).take(
            components(p, sys).len() - k,
        ),
{
    let c = components(p, sys);
    law_components_well_formed(p, sys);
    lemma_well_formed_prefix(c, c.len() - k, sys);
    law_rendered_reads_back(c.take(c.len() - k), sys);
}

/// A path of plain names below a directory is the directory and then these
/// names. Left out are directories like `\\server`, which name no share.
pub proof fn law_names_are_appended(dir: Seq<char>, segs: Seq<Seq<char>>, sys: System)
    requires
        segs.len() > 0,
        forall|i: int| 0 <= i < segs.len() ==> is_name(#[trigger] segs[i], sys),
        !drive_in_front(text::joined(segs, '/')),
        has_share(joined_path(dir, text::joined(segs, '/'), sys), sys) ==> has_share(dir, sys),
    ensures
        is_safe_relative(text::joined(segs, '/'), sys),
        components(joined_path(dir, text::joined(segs, '/'), sys), sys) == components(dir, sys)
            + Seq::new(segs.len(), |i: int| Comp::Name(segs[i])),
{
    let rel = text::joined(segs, '/');
    lemma_pieces_of_joined(segs, '/', sep_of(sys));
    lemma_joined_start(segs, '/');
    assert(is_name(segs[0], sys));
    assert(rel[0] == segs[0][0]) by {
        assert(rel.take(segs[0].len() as int)[0] == segs[0][0]);
    }
    assert(!is_sep(rel[0], sys));
    assert(!parts(rel, sys).contains(seq!['.', '.'])) by {
        if parts(rel, sys).contains(seq!['.', '.']) {
            let i = choose|i: int| 0 <= i < segs.len() && segs[i] == seq!['.', '.'];
            assert(is_name(segs[i], sys));
        }
    }
    law_safe_relative_stays_below(dir, rel, sys);
    lemma_names_stay_names(segs, sys);
}

proof fn lemma_names_stay_names(segs: Seq<Seq<char>>, sys: System)
    requires
        forall|i: int| 0 <= i < segs.len() ==> is_name(#[trigger] segs[i], sys),
    ensures
        later_comps(segs) == Seq::new(segs.len(), |i: int| Comp::Name(segs[i])),
        piece_comps(segs) == Seq::new(segs.len(), |i: int| Comp::Name(segs[i])),
    decreases segs.len(),
{
    let names = Seq::new(segs.len(), |i: int| Comp::Name(segs[i]));
    if segs.len() > 0 {
        let t = segs.drop_last();
        assert forall|i: int| 0 <= i < t.len() implies is_name(#[trigger] t[i], sys) by {
            assert(t[i] == segs[i]);
        }
        lemma_names_stay_names(t, sys);
        assert(is_name(segs[segs.len() - 1], sys));
        assert(later_comps(segs) =~= names);
        assert(piece_comps(segs) =~= names);
    } else {
        assert(later_comps(segs) =~= names);
        assert(piece_comps(segs) =~= names);
    }
}

/// A path with another extension lies beside the path, under the same name but
/// for what follows the last dot.
pub proof fn law_extension_changes_only_itself(p: Seq<char>, ext: Seq<char>, sys: System)
    requires
        name_of(components(p, sys)) is Some,
        ext.len() > 0,
        !text::has_char(ext, '/'),
        !text::has_char(ext, '\\'),
    ensures
        components(with_extension_text(p, ext, sys), sys) == components(p, sys).drop_last().push(
            Comp::Name(stem_of(name_of(components(p, sys))->Some_0) + "."@ + ext),
        ),
{
    reveal_strlit(".");
    let c = components(p, sys);
    let n = name_of(c)->Some_0;
    law_components_well_formed(p, sys);
    assert(c[c.len() - 1] == Comp::Name(n));
    assert(c.len() - 1 >= anchor_len(c));
    assert(comp_ok(c, c.len() - 1, sys));
    let stem = stem_of(n);
    match dot_index(n) {
        Some(i) => {
            assert(is_last_dot(n, i));
        },
        None => {},
    }
    let m = stem + "."@ + ext;
    assert(stem.len() > 0);
    assert(stem =~= n.take(stem.len() as int));
    assert forall|x: char| x == '/' || x == sep_of(sys) implies !text::has_char(m, x) by {
        lemma_part_is_plain(n, x);
        assert(!text::has_char("."@, x));
        lemma_no_char_concat(stem, "."@, x);
        lemma_no_char_concat(stem + "."@, ext, x);
    }
    assert(m.len() >= 3);
    assert(m[0] == n[0]);
    if stem.len() > 1 {
        assert(m[1] == n[1]);
    } else {
        assert(m[1] == '.');
    }
    let w = with_name(c, m);
    assert(anchor_len(w) == anchor_len(c));
    assert(well_formed(w, sys)) by {
        assert forall|i: int| anchor_len(w) <= i < w.len() implies #[trigger] comp_ok(
            w,
            i,
            sys,
        ) by {
            assert(comp_ok(c, i, sys));
            if i < c.len() - 1 {
                assert(w[i] == c[i]);
                if i > 0 {
                    assert(w[i - 1] == c[i - 1]);
                }
            }
        }
    }
    law_rendered_reads_back(w, sys);
}

/// What a path begins with is read back too, where it does not end between a
/// share and its root.
pub proof fn law_front_reads_back(p: Seq<char>, n: int, sys: System)
    requires
        0 <= n <= components(p, sys).len(),
        n == 1 ==> !(components(p, sys)[0] is Share),
    ensures
        components(rendered(components(p, sys).take(n), sys), sys) == components(p, sys).take(n),
{
    let c = components(p, sys);
    law_components_well_formed(p, sys);
    let t = c.take(n);
    if n >= anchor_len(c) {
        lemma_well_formed_prefix(c, n, sys);
    } else {
        assert(n == 0 || n == 1);
        assert forall|i: int| anchor_len(t) <= i < t.len() implies #[trigger] comp_ok(t, i, sys) by {
            assert(t[0] == c[0]);
        }
        assert(well_formed(t, sys));
    }
    law_rendered_reads_back(t, sys);
}

/// The pieces of a text lack what the text lacks.
pub proof fn lemma_pieces_lack(s: Seq<char>, a: char, b: char, c: char)
    requires
        !text::has_char(s, c),
    ensures
        forall|i: int|
            0 <= i < text::pieces(s, a, b).len() ==> !text::has_char(
                #[trigger] text::pieces(s, a, b)[i],
                c,
            ),
    decreases s.len(),
{
    if s.len() > 0 {
        let t = s.drop_last();
        assert forall|i: int| 0 <= i < t.len() implies t[i] != c by {
            assert(t[i] == s[i]);
        }
        lemma_pieces_lack(t, a, b, c);
        text::lemma_pieces_nonempty(t, a, b);
        let p = text::pieces(t, a, b);
        let q = text::pieces(s, a, b);
        assert(s.last() == s[s.len() - 1]);
        assert forall|i: int| 0 <= i < q.len() implies !text::has_char(#[trigger] q[i], c) by {
            if i < q.len() - 1 {
                assert(q[i] == p[i]);
            } else if !(s.last() == a || s.last() == b) {
                let x = p.last();
                assert(!text::has_char(p[p.len() - 1], c));
                assert forall|k: int| 0 <= k < q[i].len() implies q[i][k] != c by {
                    if k < x.len() {
                        assert(q[i][k] == x[k]);
                    }
                }
            }
        }
    }
}

/// Behind a first part of one character comes the separator.
pub proof fn lemma_joined_second(body: Seq<Seq<char>>, sep: char)
    requires
        body.len() > 0,
        body[0].len() == 1,
        text::joined(body, sep).len() > 1,
    ensures
        text::joined(body, sep)[1] == sep,
    decreases body.len(),
{
    if body.len() > 1 {
        let h = body.drop_last();
        let j = text::joined(h, sep);
        assert(h[0] == body[0]);
        if h.len() == 1 {
            assert(j =~= body[0]);
        } else {
            lemma_joined_start(h, sep);
            assert(j.len() > 1) by {
                lemma_joined_len(h, sep);
            }
            lemma_joined_second(h, sep);
        }
    }
}

proof fn lemma_joined_len(body: Seq<Seq<char>>, sep: char)
    ensures
        text::joined(body, sep).len() >= body.len() - 1,
        body.len() > 0 ==> text::joined(body, sep).len() >= body[0].len() + body.len() - 1,
    decreases body.len(),
{
    if body.len() > 1 {
        let h = body.drop_last();
        assert(h[0] == body[0]);
        lemma_joined_len(h, sep);
    }
}

} // verus!
