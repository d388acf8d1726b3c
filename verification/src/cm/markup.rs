//! Markup tracking: which element encloses the position, how deep the bracket
//! nesting is, and where in its line it stands.
//!
//! The scanners are forgiving: input that is not markup just yields a stable,
//! meaningless context that the mixer learns to ignore.
use vstd::prelude::*;
use crate::cm::hash::{PR1, PR2};

verus! {

/// Open elements remembered.
pub const TAG_MAX: usize = 8;

/// Unclosed brackets remembered.
pub const NEST_MAX: usize = 16;

/// Where the element scanner stands.
#[derive(Clone, Copy, PartialEq, Eq, Structural)]
pub enum Scan {
    /// Outside a tag.
    Outside,
    /// Reading a tag's name.
    Name,
    /// Inside a tag, past its name.
    Rest,
}

/// State of the markup trackers after a prefix of the input.
#[verifier::ext_equal]
pub struct MarkupState {
    /// Names of the enclosing elements, outermost first.
    pub tags: Seq<u32>,
    /// Name being scanned.
    pub name: u32,
    pub scan: Scan,
    /// The tag being scanned is a closing tag.
    pub closing: bool,
    /// The last tag whose name ended opened an element that was remembered.
    pub added: bool,
    /// Unclosed brackets, outermost first.
    pub nest: Seq<u8>,
    /// Bytes since the last line break.
    pub col: int,
    /// Hash of the first bytes of the line.
    pub head: u32,
}

/// A byte that can stand in an element name.
pub open spec fn name_byte(b: u8) -> bool {
    ||| 48 <= b <= 57
    ||| 65 <= b <= 90
    ||| 97 <= b <= 122
    ||| b == 95
    ||| b == 58
}

/// An ASCII letter.
pub open spec fn letter(b: u8) -> bool {
    65 <= b <= 90 || 97 <= b <= 122
}

/// The sequence without its last item, if it has one.
pub open spec fn popped<T>(s: Seq<T>) -> Seq<T> {
    if s.len() > 0 {
        s.drop_last()
    } else {
        s
    }
}

/// The sequence with `x` on top, if there is room for it.
pub open spec fn pushed<T>(s: Seq<T>, x: T, room: int) -> Seq<T> {
    if s.len() < room {
        s.push(x)
    } else {
        s
    }
}

impl MarkupState {
    /// Before the first byte.
    pub open spec fn start() -> MarkupState {
        MarkupState {
            tags: Seq::empty(),
            name: 0,
            scan: Scan::Outside,
            closing: false,
            added: false,
            nest: Seq::empty(),
            col: 0,
            head: 0,
        }
    }

    /// The stacks stay within their room.
    pub open spec fn wf(self) -> bool {
        self.tags.len() <= 8 && self.nest.len() <= 16 && self.col >= 0
    }

    /// Name of the innermost open element, or 0.
    pub open spec fn element(self) -> u32 {
        if self.tags.len() > 0 {
            self.tags.last()
        } else {
            0
        }
    }

    /// The innermost unclosed bracket, or 0.
    pub open spec fn bracket(self) -> u8 {
        if self.nest.len() > 0 {
            self.nest.last()
        } else {
            0
        }
    }

    /// Element scanner after `byte`, which followed `prev`. A self-closing tag takes back
    /// the element that it added, and no other.
    pub open spec fn scanned(self, byte: u8, prev: u8) -> MarkupState {
        match self.scan {
            Scan::Outside => if byte == 60 {
                MarkupState { scan: Scan::Name, name: 0, closing: false, ..self }
            } else {
                self
            },
            Scan::Name => if byte == 47 && self.name == 0 {
                MarkupState { closing: true, ..self }
            } else if name_byte(byte) {
                MarkupState {
                    name: self.name.wrapping_add((byte + 1) as u32).wrapping_mul(PR1),
                    ..self
                }
            } else {
                MarkupState {
                    tags: if self.closing {
                        popped(self.tags)
                    } else {
                        pushed(self.tags, self.name, 8)
                    },
                    added: !self.closing && self.tags.len() < 8,
                    scan: if byte == 62 { Scan::Outside } else { Scan::Rest },
                    ..self
                }
            },
            Scan::Rest => if byte == 62 {
                MarkupState {
                    tags: if prev == 47 && self.added { popped(self.tags) } else { self.tags },
                    scan: Scan::Outside,
                    ..self
                }
            } else {
                self
            },
        }
    }

    /// Bracket nesting after `byte`.
    pub open spec fn nested(self, byte: u8) -> MarkupState {
        if byte == 91 || byte == 123 || byte == 40 {
            MarkupState { nest: pushed(self.nest, byte, 16), ..self }
        } else if byte == 93 || byte == 125 || byte == 41 {
            MarkupState { nest: popped(self.nest), ..self }
        } else {
            self
        }
    }

    /// Line shape after `byte`: only the first four bytes of a line define it.
    pub open spec fn lined(self, byte: u8) -> MarkupState {
        if byte == 10 {
            MarkupState { col: 0, head: 0, ..self }
        } else {
            MarkupState {
                col: self.col + 1,
                head: if self.col + 1 <= 4 {
                    self.head.wrapping_add((byte + 1) as u32).wrapping_mul(PR2)
                } else {
                    self.head
                },
                ..self
            }
        }
    }

    /// All trackers after `byte`, which followed `prev`.
    pub open spec fn after(self, byte: u8, prev: u8) -> MarkupState {
        self.scanned(byte, prev).nested(byte).lined(byte)
    }
}

// ---------------------------------------------------------------------------
// Laws
// ---------------------------------------------------------------------------

/// All trackers after `bytes`, the first of which followed `prev`.
pub open spec fn followed(s: MarkupState, bytes: Seq<u8>, prev: u8) -> MarkupState
    decreases bytes.len(),
{
    if bytes.len() == 0 {
        s
    } else {
        followed(s.after(bytes[0], prev), bytes.drop_first(), bytes[0])
    }
}

/// Inside a tag nothing changes the elements before the tag ends.
proof fn lemma_inside_tag(s: MarkupState, bytes: Seq<u8>, prev: u8)
    requires
        s.scan == Scan::Rest,
        forall|i: int| 0 <= i < bytes.len() ==> #[trigger] bytes[i] != 62,
    ensures
        followed(s, bytes, prev).scan == Scan::Rest,
        followed(s, bytes, prev).tags == s.tags,
        followed(s, bytes, prev).added == s.added,
    decreases bytes.len(),
{
    if bytes.len() > 0 {
        lemma_inside_tag(s.after(bytes[0], prev), bytes.drop_first(), bytes[0]);
    }
}

/// A self-closing tag leaves the enclosing elements as they were, however many there
/// are. `s` has scanned the name of an opening tag; `b` ends the name and `bytes` are
/// what follows up to the closing bracket, the last of all a slash.
pub proof fn self_closing_tag_keeps_elements(s: MarkupState, b: u8, bytes: Seq<u8>, prev: u8)
    requires
        s.scan == Scan::Name,
        !s.closing,
        !name_byte(b),
        b != 62,
        b == 47 ==> s.name != 0,
        forall|i: int| 0 <= i < bytes.len() ==> #[trigger] bytes[i] != 62,
        (seq![b] + bytes).last() == 47,
    ensures
        followed(s.after(b, prev), bytes, b).after(62, 47).tags == s.tags,
        followed(s.after(b, prev), bytes, b).after(62, 47).scan == Scan::Outside,
{
    lemma_inside_tag(s.after(b, prev), bytes, b);
    assert(popped(s.tags.push(s.name)) =~= s.tags);
}

/// Inside a name nothing changes the elements before the name ends.
proof fn lemma_inside_name(s: MarkupState, bytes: Seq<u8>, prev: u8)
    requires
        s.scan == Scan::Name,
        forall|i: int| 0 <= i < bytes.len() ==> name_byte(#[trigger] bytes[i]),
    ensures
        followed(s, bytes, prev).scan == Scan::Name,
        followed(s, bytes, prev).tags == s.tags,
        followed(s, bytes, prev).closing == s.closing,
    decreases bytes.len(),
{
    if bytes.len() > 0 {
        assert(name_byte(bytes[0]));
        assert forall|i: int| 0 <= i < bytes.drop_first().len() implies name_byte(
            #[trigger] bytes.drop_first()[i],
        ) by {
            assert(name_byte(bytes[i + 1]));
        }
        lemma_inside_name(s.after(bytes[0], prev), bytes.drop_first(), bytes[0]);
    }
}

/// An opening tag enters one element, and a closing tag leaves the innermost one.
pub proof fn tags_open_and_close(s: MarkupState, name: Seq<u8>, prev: u8, last: u8)
    requires
        s.wf(),
        s.scan == Scan::Outside,
        forall|i: int|
            0 <= i < name.len() ==> 48 <= #[trigger] name[i] <= 57 || 65 <= name[i] <= 90 || 97
                <= name[i] <= 122 || name[i] == 95 || name[i] == 58,
    ensures
        ({
            let t = followed(s.after(60, prev), name, 60);
            let u = t.after(62, last);
            &&& u.scan == Scan::Outside
            &&& s.tags.len() < 8 ==> u.tags == s.tags.push(t.name) && u.element() == t.name
            &&& s.tags.len() >= 8 ==> u.tags == s.tags
        }),
        ({
            let t = followed(s.after(60, prev).after(47, 60), name, 47).after(62, last);
            &&& t.scan == Scan::Outside
            &&& s.tags.len() > 0 ==> t.tags == s.tags.drop_last()
            &&& s.tags.len() == 0 ==> t.tags == s.tags
        }),
{
    assert forall|i: int| 0 <= i < name.len() implies name_byte(#[trigger] name[i]) by {
    }
    lemma_inside_name(s.after(60, prev), name, 60);
    lemma_inside_name(s.after(60, prev).after(47, 60), name, 47);
}

/// A closing bracket takes back what the last opening bracket did, unless there was no
/// more room for it.
pub proof fn brackets_pair_up(s: MarkupState, open: u8, close: u8, p: u8, q: u8)
    requires
        s.nest.len() < 16,
        open == 40 || open == 91 || open == 123,
        close == 41 || close == 93 || close == 125,
    ensures
        s.after(open, p).bracket() == open,
        s.after(open, p).nest.len() == s.nest.len() + 1,
        s.after(open, p).after(close, q).nest == s.nest,
{
    assert(popped(s.nest.push(open)) =~= s.nest);
}

/// The column counts the bytes since the last line break, and the head of a line depends
/// on its first four bytes only.
pub proof fn columns_count_from_the_line_break(s: MarkupState, line: Seq<u8>, prev: u8)
    requires
        forall|i: int| 0 <= i < line.len() ==> #[trigger] line[i] != 10,
    ensures
        followed(s.after(10, prev), line, 10).col == line.len(),
        line.len() >= 4 ==> followed(s.after(10, prev), line, 10).head == followed(
            s.after(10, prev),
            line.take(4),
            10,
        ).head,
{
    lemma_column(s.after(10, prev), line, 10);
    if line.len() >= 4 {
        let m = followed(s.after(10, prev), line.take(4), 10);
        assert forall|i: int| 0 <= i < line.take(4).len() implies #[trigger] line.take(4)[i] != 10 by {
            assert(line[i] != 10);
        }
        lemma_column(s.after(10, prev), line.take(4), 10);
        lemma_followed_on(s.after(10, prev), line.take(4), line.skip(4), 10);
        assert(line.take(4) + line.skip(4) =~= line);
        assert forall|i: int| 0 <= i < line.skip(4).len() implies #[trigger] line.skip(4)[i] != 10 by {
            assert(line[i + 4] != 10);
        }
        lemma_column(m, line.skip(4), line[3]);
    }
}

proof fn lemma_column(s: MarkupState, line: Seq<u8>, prev: u8)
    requires
        forall|i: int| 0 <= i < line.len() ==> #[trigger] line[i] != 10,
    ensures
        followed(s, line, prev).col == s.col + line.len(),
        s.col >= 4 ==> followed(s, line, prev).head == s.head,
    decreases line.len(),
{
    if line.len() > 0 {
        assert forall|i: int| 0 <= i < line.drop_first().len() implies #[trigger] line.drop_first()[i]
            != 10 by {
            assert(line[i + 1] != 10);
        }
        assert(line[0] != 10);
        lemma_column(s.after(line[0], prev), line.drop_first(), line[0]);
    }
}

proof fn lemma_followed_on(s: MarkupState, a: Seq<u8>, b: Seq<u8>, prev: u8)
    ensures
        followed(s, a + b, prev) == followed(
            followed(s, a, prev),
            b,
            if a.len() > 0 { a.last() } else { prev },
        ),
    decreases a.len(),
{
    if a.len() > 0 {
        lemma_followed_on(s.after(a[0], prev), a.drop_first(), b, a[0]);
        assert((a + b).drop_first() =~= a.drop_first() + b);
        if a.len() > 1 {
            assert(a.drop_first().last() == a.last());
        }
    } else {
        assert(a + b =~= b);
    }
}

/// The markup trackers.
pub struct Markup {
    tags: Vec<u32>,
    name: u32,
    scan: Scan,
    closing: bool,
    added: bool,
    nest: Vec<u8>,
    col: u32,
    head: u32,
}

impl View for Markup {
    type V = MarkupState;

    closed spec fn view(&self) -> MarkupState {
        MarkupState {
            tags: self.tags@,
            name: self.name,
            scan: self.scan,
            closing: self.closing,
            added: self.added,
            nest: self.nest@,
            col: self.col as int,
            head: self.head,
        }
    }
}

impl Markup {
    /// Trackers that have seen nothing.
    pub fn new() -> (r: Markup)
        ensures
            r@ == MarkupState::start(),
            r@.wf(),
    {
        let r = Markup {
            tags: Vec::new(),
            name: 0,
            scan: Scan::Outside,
            closing: false,
            added: false,
            nest: Vec::new(),
            col: 0,
            head: 0,
        };
        assert(r@ =~= MarkupState::start());
        r
    }

    /// Name of the innermost open element, or 0.
    pub fn element(&self) -> (r: u32)
        ensures
            r == self@.element(),
    {
        let n = self.tags.len();
        if n > 0 {
            self.tags[n - 1]
        } else {
            0
        }
    }

    /// The innermost unclosed bracket, or 0.
    pub fn bracket(&self) -> (r: u8)
        ensures
            r == self@.bracket(),
    {
        let n = self.nest.len();
        if n > 0 {
            self.nest[n - 1]
        } else {
            0
        }
    }

    /// Unclosed brackets.
    pub fn depth(&self) -> (r: usize)
        ensures
            r == self@.nest.len(),
    {
        self.nest.len()
    }

    /// Bytes since the last line break.
    pub fn column(&self) -> (r: u32)
        ensures
            r == self@.col,
    {
        self.col
    }

    /// Hash of the first bytes of the line.
    pub fn head(&self) -> (r: u32)
        ensures
            r == self@.head,
    {
        self.head
    }

    fn pop_tag(&mut self)
        ensures
            final(self)@ == (MarkupState { tags: popped(old(self)@.tags), ..old(self)@ }),
    {
        let _ = self.tags.pop();
    }

    fn update_scan(&mut self, byte: u8, prev: u8)
        ensures
            final(self)@ == old(self)@.scanned(byte, prev),
    {
        match self.scan {
            Scan::Outside => {
                if byte == 60 {
                    self.scan = Scan::Name;
                    self.name = 0;
                    self.closing = false;
                }
            },
            Scan::Name => {
                if byte == 47 && self.name == 0 {
                    self.closing = true;
                } else if byte >= 48 && byte <= 57 || byte >= 65 && byte <= 90 || byte >= 97
                    && byte <= 122 || byte == 95 || byte == 58 {
                    self.name = self.name.wrapping_add(byte as u32 + 1).wrapping_mul(PR1);
                } else {
                    self.added = !self.closing && self.tags.len() < TAG_MAX;
                    if self.closing {
                        self.pop_tag();
                    } else if self.added {
                        self.tags.push(self.name);
                    }
                    self.scan = if byte == 62 {
                        Scan::Outside
                    } else {
                        Scan::Rest
                    };
                }
            },
            Scan::Rest => {
                if byte == 62 {
                    if prev == 47 && self.added {
                        self.pop_tag();
                    }
                    self.scan = Scan::Outside;
                }
            },
        }
        assert(self@ =~= old(self)@.scanned(byte, prev));
    }

    /// Advance the trackers by one committed byte, which followed `prev`.
    pub fn update_markup(&mut self, byte: u8, prev: u8)
        requires
            old(self)@.wf(),
            old(self)@.col < u32::MAX,
        ensures
            final(self)@ == old(self)@.after(byte, prev),
            final(self)@.wf(),
    {
        self.update_scan(byte, prev);
        let ghost mid = self@;
        if byte == 91 || byte == 123 || byte == 40 {
            if self.nest.len() < NEST_MAX {
                self.nest.push(byte);
            }
        } else if byte == 93 || byte == 125 || byte == 41 {
            let _ = self.nest.pop();
        }
        assert(self@ =~= mid.nested(byte));
        if byte == 10 {
            self.col = 0;
            self.head = 0;
        } else {
            self.col = self.col + 1;
            if self.col <= 4 {
                self.head = self.head.wrapping_add(byte as u32 + 1).wrapping_mul(PR2);
            }
        }
        assert(self@ =~= mid.nested(byte).lined(byte));
    }
}

} // verus!
