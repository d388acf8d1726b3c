//! Which entries of a directory or an archive are ticked.
use vstd::prelude::*;
use vstd::utf8::*;
use crate::names;
use crate::transform::order;

verus! {

/// `a` comes before `b`.
pub open spec fn before(a: Seq<char>, b: Seq<char>) -> bool {
    a != b && order::lex_le(encode_utf8(a), encode_utf8(b))
}

/// Names in order, each once.
pub open spec fn ascending(s: Seq<Seq<char>>) -> bool {
    forall|i: int, j: int| 0 <= i < j < s.len() ==> before(#[trigger] s[i], #[trigger] s[j])
}

/// A set of ticked names.
pub struct Selection {
    ticked: Vec<String>,
}

impl View for Selection {
    type V = Set<Seq<char>>;

    closed spec fn view(&self) -> Set<Seq<char>> {
        names::strings(self.ticked@).to_set()
    }
}

proof fn lemma_names_differ(a: Seq<char>, b: Seq<char>)
    requires
        a != b,
    ensures
        encode_utf8(a) != encode_utf8(b),
{
    if encode_utf8(a) == encode_utf8(b) {
        encode_utf8_decode_utf8(a);
        encode_utf8_decode_utf8(b);
    }
}

proof fn lemma_before_transitive(a: Seq<char>, b: Seq<char>, c: Seq<char>)
    requires
        before(a, b),
        before(b, c),
    ensures
        before(a, c),
{
    order::lemma_lex_transitive(encode_utf8(a), encode_utf8(b), encode_utf8(c));
    if a == c {
        order::lemma_lex_antisymmetric(encode_utf8(a), encode_utf8(b));
        lemma_names_differ(a, b);
    }
}

/// What a click on an entry does.
#[derive(Clone, Copy, Debug, PartialEq, Eq, Structural)]
pub enum Action {
    Nothing,
    /// Tick or untick it.
    Toggle,
    /// Go into the directory.
    Navigate,
    /// Open the archive.
    Open,
}

/// What a click does: one selects, two open what can be opened.
pub fn on_click(is_dir: bool, is_archive: bool, single: bool, double: bool) -> (r: Action)
    ensures
        r == (if double && is_dir {
            Action::Navigate
        } else if double && is_archive {
            Action::Open
        } else if single && !double {
            Action::Toggle
        } else {
            Action::Nothing
        }),
{
    if double {
        if is_dir {
            Action::Navigate
        } else if is_archive {
            Action::Open
        } else {
            Action::Nothing
        }
    } else if single {
        Action::Toggle
    } else {
        Action::Nothing
    }
}

/// Ticking twice changes nothing.
pub proof fn toggle_undoes_itself(s: Set<Seq<char>>, name: Seq<char>)
    ensures
        toggled(toggled(s, name), name) == s,
{
    assert(toggled(toggled(s, name), name) =~= s);
}

/// A selection after `name` was ticked or unticked.
pub open spec fn toggled(s: Set<Seq<char>>, name: Seq<char>) -> Set<Seq<char>> {
    if s.contains(name) {
        s.remove(name)
    } else {
        s.insert(name)
    }
}

impl Selection {
    /// The names are held in order.
    pub closed spec fn wf(self) -> bool {
        ascending(names::strings(self.ticked@))
    }

    /// Nothing is ticked.
    pub fn new() -> (r: Selection)
        ensures
            r.wf(),
            r@ == Set::<Seq<char>>::empty(),
    {
        let r = Selection { ticked: Vec::new() };
        assert(r@ =~= Set::empty());
        r
    }

    /// How many names are ticked.
    pub fn len(&self) -> (r: usize)
        requires
            self.wf(),
        ensures
            r == self@.len(),
    {
        proof {
            names::strings(self.ticked@).unique_seq_to_set();
        }
        self.ticked.len()
    }

    /// Where `name` stands or would stand.
    fn find(&self, name: &str) -> (r: (usize, bool))
        requires
            self.wf(),
        ensures
            ({
                let s = names::strings(self.ticked@);
                &&& r.0 <= s.len()
                &&& r.1 == self@.contains(name@)
                &&& r.1 ==> r.0 < s.len() && s[r.0 as int] == name@
                &&& forall|i: int| 0 <= i < r.0 ==> before(#[trigger] s[i], name@)
                &&& !r.1 ==> forall|i: int| r.0 <= i < s.len() ==> before(name@, #[trigger] s[i])
            }),
    {
        let ghost s = names::strings(self.ticked@);
        let b = name.as_bytes();
        let mut i: usize = 0;
        while i < self.ticked.len()
            invariant
                i <= self.ticked@.len(),
                b@ == encode_utf8(name@),
                s == names::strings(self.ticked@),
                ascending(s),
                self@ == s.to_set(),
                forall|k: int| 0 <= k < i ==> before(#[trigger] s[k], name@),
            decreases self.ticked@.len() - i,
        {
            let t = self.ticked[i].as_str().as_bytes();
            assert(t@ == encode_utf8(s[i as int]));
            if order::lex_at_most(b, t) {
                let same: bool = order::lex_at_most(t, b);
                proof {
                    if same {
                        order::lemma_lex_antisymmetric(t@, b@);
                        if s[i as int] != name@ {
                            lemma_names_differ(s[i as int], name@);
                        }
                        assert(s.to_set().contains(name@));
                    } else {
                        order::lemma_lex_reflexive(b@);
                        assert forall|k: int| i <= k < s.len() implies before(
                            name@,
                            #[trigger] s[k],
                        ) by {
                            if k > i {
                                lemma_before_transitive(name@, s[i as int], s[k]);
                            }
                        }
                        if s.to_set().contains(name@) {
                            let k = choose|k: int| 0 <= k < s.len() && s[k] == name@;
                            assert(before(s[k], name@) || before(name@, s[k]));
                        }
                    }
                }
                return (i, same);
            }
            proof {
                order::lemma_lex_total(b@, t@);
                order::lemma_lex_reflexive(b@);
            }
            i = i + 1;
        }
        proof {
            if s.to_set().contains(name@) {
                let k = choose|k: int| 0 <= k < s.len() && s[k] == name@;
                assert(before(s[k], name@));
            }
        }
        (i, false)
    }

    /// Whether `name` is ticked.
    pub fn contains(&self, name: &str) -> (r: bool)
        requires
            self.wf(),
        ensures
            r == self@.contains(name@),
    {
        self.find(name).1
    }

    /// Tick `name`.
    pub fn insert(&mut self, name: &str)
        requires
            old(self).wf(),
        ensures
            final(self).wf(),
            final(self)@ == old(self)@.insert(name@),
    {
        let (at, found) = self.find(name);
        let ghost was = names::strings(self.ticked@);
        if !found {
            self.ticked.insert(at, name.to_owned());
            let ghost s = names::strings(self.ticked@);
            assert(s =~= was.insert(at as int, name@));
            assert(s.to_set() =~= was.to_set().insert(name@)) by {
                assert forall|x: Seq<char>| was.contains(x) implies #[trigger] s.contains(x) by {
                    let k = choose|k: int| 0 <= k < was.len() && was[k] == x;
                    assert(s[if k < at { k } else { k + 1 }] == x);
                }
                assert(s[at as int] == name@);
                assert forall|x: Seq<char>| #[trigger] s.contains(x) && x != name@ implies was.contains(
                    x,
                ) by {
                    let k = choose|k: int| 0 <= k < s.len() && s[k] == x;
                    assert(was[if k < at { k } else { k - 1 }] == x);
                }
            }
        } else {
            assert(was.to_set().insert(name@) =~= was.to_set());
        }
    }

    /// Tick or untick `name`.
    pub fn toggle(&mut self, name: &str)
        requires
            old(self).wf(),
        ensures
            final(self).wf(),
            final(self)@ == toggled(old(self)@, name@),
    {
        let (at, found) = self.find(name);
        if found {
            let ghost was = names::strings(self.ticked@);
            let _ = self.ticked.remove(at);
            let ghost s = names::strings(self.ticked@);
            assert(s =~= was.remove(at as int));
            assert(s.to_set() =~= was.to_set().remove(name@)) by {
                assert forall|x: Seq<char>| #[trigger] was.contains(x) && x != name@ implies s.contains(
                    x,
                ) by {
                    let k = choose|k: int| 0 <= k < was.len() && was[k] == x;
                    assert(s[if k < at { k } else { k - 1 }] == x);
                }
                assert forall|x: Seq<char>| #[trigger] s.contains(x) implies was.contains(x) && x
                    != name@ by {
                    let k = choose|k: int| 0 <= k < s.len() && s[k] == x;
                    let j = if k < at { k } else { k + 1 };
                    assert(was[j] == x);
                    assert(before(was[j], was[at as int]) || before(was[at as int], was[j]));
                }
            }
        } else {
            self.insert(name);
        }
    }

    /// Untick everything.
    pub fn clear(&mut self)
        ensures
            final(self).wf(),
            final(self)@ == Set::<Seq<char>>::empty(),
    {
        *self = Selection::new();
    }

    /// Tick all of `all`.
    pub fn insert_all(&mut self, all: &Vec<String>)
        requires
            old(self).wf(),
        ensures
            final(self).wf(),
            final(self)@ == old(self)@.union(names::strings(all@).to_set()),
    {
        let ghost was = self@;
        let ghost s = names::strings(all@);
        let mut i: usize = 0;
        assert(was.union(s.take(0).to_set()) =~= was);
        while i < all.len()
            invariant
                i <= all@.len(),
                s == names::strings(all@),
                self.wf(),
                self@ == was.union(s.take(i as int).to_set()),
            decreases all@.len() - i,
        {
            self.insert(all[i].as_str());
            proof {
                assert(s.take(i + 1) =~= s.take(i as int).push(s[i as int]));
                lemma_push_to_set(s.take(i as int), s[i as int]);
                assert(self@ =~= was.union(s.take(i + 1).to_set()));
            }
            i = i + 1;
        }
        assert(s.take(s.len() as int) =~= s);
    }

    /// Untick what is not `present`.
    pub fn retain(&mut self, present: &Vec<String>)
        requires
            old(self).wf(),
        ensures
            final(self).wf(),
            final(self)@ == old(self)@.intersect(names::strings(present@).to_set()),
    {
        let ghost was = self@;
        let ghost s = names::strings(present@);
        let mut kept = Selection::new();
        let mut i: usize = 0;
        assert(kept@ =~= was.intersect(s.take(0).to_set()));
        while i < present.len()
            invariant
                i <= present@.len(),
                s == names::strings(present@),
                self.wf(),
                self@ == was,
                kept.wf(),
                kept@ == was.intersect(s.take(i as int).to_set()),
            decreases present@.len() - i,
        {
            if self.contains(present[i].as_str()) {
                kept.insert(present[i].as_str());
            }
            proof {
                assert(s.take(i + 1) =~= s.take(i as int).push(s[i as int]));
                lemma_push_to_set(s.take(i as int), s[i as int]);
                assert(kept@ =~= was.intersect(s.take(i + 1).to_set()));
            }
            i = i + 1;
        }
        assert(s.take(s.len() as int) =~= s);
        *self = kept;
    }

    /// Whether there is anything, and all of it is ticked.
    pub fn covers(&self, all: &Vec<String>) -> (r: bool)
        requires
            self.wf(),
        ensures
            r == (all@.len() > 0 && names::strings(all@).to_set().subset_of(self@)),
    {
        let ghost s = names::strings(all@);
        let mut i: usize = 0;
        while i < all.len()
            invariant
                i <= all@.len(),
                s == names::strings(all@),
                self.wf(),
                forall|k: int| 0 <= k < i ==> self@.contains(#[trigger] s[k]),
            decreases all@.len() - i,
        {
            if !self.contains(all[i].as_str()) {
                assert(s.to_set().contains(s[i as int]));
                return false;
            }
            i = i + 1;
        }
        all.len() > 0
    }

    /// The ticked names in order.
    pub fn list(&self) -> (r: &Vec<String>)
        requires
            self.wf(),
        ensures
            ascending(names::strings(r@)),
            names::strings(r@).to_set() == self@,
    {
        &self.ticked
    }
}

proof fn lemma_push_to_set(s: Seq<Seq<char>>, x: Seq<char>)
    ensures
        s.push(x).to_set() == s.to_set().insert(x),
{
    let t = s.push(x);
    assert forall|y: Seq<char>| t.contains(y) <==> #[trigger] s.to_set().insert(x).contains(y) by {
        if s.contains(y) {
            let k = choose|k: int| 0 <= k < s.len() && s[k] == y;
            assert(t[k] == y);
        }
        if y == x {
            assert(t[s.len() as int] == x);
        }
        if t.contains(y) && y != x {
            let k = choose|k: int| 0 <= k < t.len() && t[k] == y;
            assert(s[k] == y);
        }
    }
    assert(t.to_set() =~= s.to_set().insert(x));
}

} // verus!
