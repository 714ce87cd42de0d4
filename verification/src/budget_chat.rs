use vstd::prelude::*;

verus! {

/// A character with the Unicode `White_Space` property.
pub open spec fn is_white_space(c: char) -> bool {
    ||| ('\u{9}' <= c <= '\u{d}')
    ||| c == ' '
    ||| c == '\u{85}'
    ||| c == '\u{a0}'
    ||| c == '\u{1680}'
    ||| ('\u{2000}' <= c <= '\u{200a}')
    ||| c == '\u{2028}'
    ||| c == '\u{2029}'
    ||| c == '\u{202f}'
    ||| c == '\u{205f}'
    ||| c == '\u{3000}'
}

/// `s` without its trailing white space.
pub open spec fn trim_end_spec(s: Seq<char>) -> Seq<char>
    decreases s.len(),
{
    if s.len() > 0 && is_white_space(s.last()) {
        trim_end_spec(s.drop_last())
    } else {
        s
    }
}

/// Whether `c` has the Unicode `White_Space` property.
fn is_white_space_char(c: char) -> (r: bool)
    ensures
        r == is_white_space(c),
{
    ('\u{9}' <= c && c <= '\u{d}') || c == ' ' || c == '\u{85}' || c == '\u{a0}' || c
        == '\u{1680}' || ('\u{2000}' <= c && c <= '\u{200a}') || c == '\u{2028}' || c
        == '\u{2029}' || c == '\u{202f}' || c == '\u{205f}' || c == '\u{3000}'
}

/// `s` without its trailing white space, as `str::trim_end` gives it.
fn trim_end(s: &str) -> (r: &str)
    ensures
        r@ == trim_end_spec(s@),
{
    let n = s.unicode_len();
    let mut k = n;
    assert(s@.take(n as int) =~= s@);
    while k > 0 && is_white_space_char(s.get_char(k - 1))
        invariant
            k <= n,
            n == s@.len(),
            trim_end_spec(s@) == trim_end_spec(s@.take(k as int)),
        decreases k,
    {
        assert(s@.take(k as int).drop_last() =~= s@.take(k - 1));
        k = k - 1;
    }
    let r = s.substring_char(0, k);
    assert(s@.subrange(0, k as int) =~= s@.take(k as int));
    r
}

/// The prompt sent to a client as soon as it connects.
pub fn welcome_text() -> (r: &'static str)
    ensures
        r@ == "Welcome to budgetchat. Enter a display name, letters and digits only:\n"@,
{
    "Welcome to budgetchat. Enter a display name, letters and digits only:\n"
}

/// The reply to an invalid display name, after which the connection is closed.
pub fn bad_name_text() -> (r: &'static str)
    ensures
        r@ == "Bad username, try again ;(\n"@,
{
    "Bad username, try again ;(\n"
}

/// An ASCII letter or digit.
pub open spec fn is_alnum_char(c: char) -> bool {
    ('a' <= c <= 'z') || ('A' <= c <= 'Z') || ('0' <= c <= '9')
}

/// A valid display name: at least one character, and only ASCII letters and digits.
pub open spec fn valid_name(name: Seq<char>) -> bool {
    &&& name.len() > 0
    &&& forall|i: int| 0 <= i < name.len() ==> is_alnum_char(#[trigger] name[i])
}

/// Whether `name` is a valid display name.
pub fn is_valid_name(name: &str) -> (r: bool)
    ensures
        r == valid_name(name@),
{
    let n = name.unicode_len();
    if n == 0 {
        return false;
    }
    for i in 0..n
        invariant
            n == name@.len(),
            forall|j: int| 0 <= j < i ==> is_alnum_char(#[trigger] name@[j]),
    {
        let c = name.get_char(i);
        if !(('a' <= c && c <= 'z') || ('A' <= c && c <= 'Z') || ('0' <= c && c <= '9')) {
            assert(!is_alnum_char(name@[i as int]));
            return false;
        }
    }
    true
}

/// The display name that a joining client's first line asks for, if it is valid: the
/// line without trailing whitespace.
pub fn requested_name(line: &str) -> (r: Option<String>)
    ensures
        match r {
            Some(name) => valid_name(trim_end_spec(line@)) && name@ == trim_end_spec(line@),
            None => !valid_name(trim_end_spec(line@)),
        },
{
    broadcast use vstd::string::to_string_from_display_ensures_for_str;

    let name = trim_end(line);
    if is_valid_name(name) {
        Some(name.to_string())
    } else {
        None
    }
}

/// The names of a list of strings.
pub open spec fn names_of(v: Seq<String>) -> Seq<Seq<char>> {
    v.map_values(|s: String| s@)
}

/// `names` joined with `sep` between consecutive names.
pub open spec fn joined(names: Seq<Seq<char>>, sep: Seq<char>) -> Seq<char>
    decreases names.len(),
{
    if names.len() == 0 {
        Seq::empty()
    } else if names.len() == 1 {
        names[0]
    } else {
        joined(names.drop_last(), sep) + sep + names.last()
    }
}

/// The greeting for a client who has joined, given who was there before.
pub open spec fn greeting_text(present: Seq<Seq<char>>) -> Seq<char> {
    if present.len() == 0 {
        "* Greetings. You're the first one here.\n"@
    } else {
        "* Greetings. Who's here: "@ + joined(present, ", "@) + "\n"@
    }
}

/// The greeting for a client who has joined, listing who was there before.
pub fn greeting(present: &Vec<String>) -> (r: String)
    ensures
        r@ == greeting_text(names_of(present@)),
{
    let n = present.len();
    if n == 0 {
        let mut r = String::new();
        r.append("* Greetings. You're the first one here.\n");
        assert(r@ =~= "* Greetings. You're the first one here.\n"@);
        return r;
    }
    let ghost all = names_of(present@);
    let mut list = String::new();
    for i in 0..n
        invariant
            n == present@.len(),
            n > 0,
            all == names_of(present@),
            i == 0 ==> list@ == Seq::<char>::empty(),
            i > 0 ==> list@ == joined(all.take(i as int), ", "@),
    {
        if i > 0 {
            list.append(", ");
        }
        list.append(present[i].as_str());
        proof {
            if i > 0 {
                assert(all.take(i + 1).drop_last() =~= all.take(i as int));
                assert(all.take(i + 1).last() == present@[i as int]@);
            } else {
                assert(all.take(1).len() == 1);
                assert(all.take(1)[0] == present@[0]@);
                assert(list@ =~= present@[0]@);
            }
        }
    }
    assert(all.take(n as int) =~= all);
    let mut r = String::new();
    r.append("* Greetings. Who's here: ");
    r.append(list.as_str());
    r.append("\n");
    assert(r@ =~= "* Greetings. Who's here: "@ + joined(all, ", "@) + "\n"@);
    r
}

/// What one client broadcasts to the others.
pub enum ChatEvent {
    Join { name: String },
    Leave { name: String },
    Message { name: String, text: String },
}

/// The line that a client named `me` is sent for an event, if any: joins and leaves
/// are announced, and a message is shown unless its sender has the client's name.
pub open spec fn event_line(event: ChatEvent, me: Seq<char>) -> Option<Seq<char>> {
    match event {
        ChatEvent::Join { name } => Some("* "@ + name@ + " has joined budget chat\n"@),
        ChatEvent::Leave { name } => Some("* "@ + name@ + " has left budget chat\n"@),
        ChatEvent::Message { name, text } => if name@ == me {
            None
        } else {
            Some("["@ + name@ + "] "@ + text@ + "\n"@)
        },
    }
}

/// The line that a client named `me` is sent for an event, if any.
pub fn render_event(event: &ChatEvent, me: &String) -> (r: Option<String>)
    ensures
        match r {
            Some(line) => event_line(*event, me@) == Some(line@),
            None => event_line(*event, me@) is None,
        },
{
    match event {
        ChatEvent::Join { name } => {
            let mut r = String::new();
            r.append("* ");
            r.append(name.as_str());
            r.append(" has joined budget chat\n");
            assert(r@ =~= "* "@ + name@ + " has joined budget chat\n"@);
            Some(r)
        },
        ChatEvent::Leave { name } => {
            let mut r = String::new();
            r.append("* ");
            r.append(name.as_str());
            r.append(" has left budget chat\n");
            assert(r@ =~= "* "@ + name@ + " has left budget chat\n"@);
            Some(r)
        },
        ChatEvent::Message { name, text } => {
            if *name == *me {
                None
            } else {
                let mut r = String::new();
                r.append("[");
                r.append(name.as_str());
                r.append("] ");
                r.append(text.as_str());
                r.append("\n");
                assert(r@ =~= "["@ + name@ + "] "@ + text@ + "\n"@);
                Some(r)
            }
        },
    }
}

/// The names of the clients who have joined and not left.
pub struct ChatRoom {
    names: Vec<String>,
}

spec fn names_distinct(v: Seq<String>) -> bool {
    forall|i: int, j: int| 0 <= i < v.len() && 0 <= j < v.len() && i != j ==> v[i]@ != v[j]@
}

impl View for ChatRoom {
    type V = Set<Seq<char>>;

    closed spec fn view(&self) -> Set<Seq<char>> {
        Set::new(|n: Seq<char>| exists|i: int| 0 <= i < self.names@.len() && self.names@[i]@ == n)
    }
}

impl ChatRoom {
    /// The internal invariant: each name is held once.
    pub closed spec fn wf(&self) -> bool {
        names_distinct(self.names@)
    }

    /// An empty room.
    pub fn new() -> (r: ChatRoom)
        ensures
            r.wf(),
            r@ == Set::<Seq<char>>::empty(),
    {
        let r = ChatRoom { names: Vec::new() };
        assert(r@ =~= Set::<Seq<char>>::empty());
        r
    }

    /// The position of `name`, if present.
    fn position(&self, name: &String) -> (r: Option<usize>)
        ensures
            r matches Some(i) ==> i < self.names@.len() && self.names@[i as int]@ == name@,
            r is None ==> !self@.contains(name@),
    {
        let n = self.names.len();
        for i in 0..n
            invariant
                n == self.names@.len(),
                forall|j: int| 0 <= j < i ==> self.names@[j]@ != name@,
        {
            if self.names[i] == *name {
                return Some(i);
            }
        }
        None
    }

    /// The names present, each once.
    pub fn members(&self) -> (r: Vec<String>)
        requires
            self.wf(),
        ensures
            r@.len() == self@.len(),
            forall|i: int, j: int| 0 <= i < r@.len() && 0 <= j < r@.len() && i != j ==> r@[i]@ != r@[j]@,
            forall|n: Seq<char>| self@.contains(n) <==> exists|i: int| 0 <= i < r@.len() && #[trigger] r@[i]@ == n,
    {
        let n = self.names.len();
        let mut r: Vec<String> = Vec::new();
        for i in 0..n
            invariant
                n == self.names@.len(),
                r@.len() == i,
                forall|j: int| 0 <= j < i ==> #[trigger] r@[j]@ == self.names@[j]@,
        {
            r.push(self.names[i].clone());
        }
        proof {
            self.lemma_len();
            assert forall|m: Seq<char>| self@.contains(m) implies exists|i: int| 0 <= i < r@.len() && #[trigger] r@[i]@ == m by {
                let k = choose|k: int| 0 <= k < self.names@.len() && self.names@[k]@ == m;
                assert(r@[k]@ == m);
            }
            assert forall|m: Seq<char>| (exists|i: int| 0 <= i < r@.len() && #[trigger] r@[i]@ == m) implies self@.contains(m) by {
                let k = choose|k: int| 0 <= k < r@.len() && r@[k]@ == m;
                assert(self.names@[k]@ == m);
            }
        }
        r
    }

    proof fn lemma_len(&self)
        requires
            self.wf(),
        ensures
            self@.finite(),
            self@.len() == self.names@.len(),
    {
        let s = self.names@.map_values(|x: String| x@);
        assert forall|m: Seq<char>| self@.contains(m) <==> s.to_set().contains(m) by {
            if self@.contains(m) {
                let k = choose|k: int| 0 <= k < self.names@.len() && self.names@[k]@ == m;
                assert(s[k] == m);
            }
            if s.to_set().contains(m) {
                assert(s.contains(m));
                let k = choose|k: int| 0 <= k < s.len() && s[k] == m;
                assert(self.names@[k]@ == m);
            }
        }
        assert(self@ =~= s.to_set());
        assert forall|i: int, j: int| 0 <= i < s.len() && 0 <= j < s.len() && i != j implies s[i] != s[j] by {}
        assert(s.no_duplicates());
        s.unique_seq_to_set();
    }

    /// Lets `name` in. Returns who was there before, each once; afterwards `name` is
    /// present.
    pub fn join(&mut self, name: &String) -> (before: Vec<String>)
        requires
            old(self).wf(),
        ensures
            final(self).wf(),
            final(self)@ == old(self)@.insert(name@),
            before@.len() == old(self)@.len(),
            forall|i: int, j: int| 0 <= i < before@.len() && 0 <= j < before@.len() && i != j ==> before@[i]@ != before@[j]@,
            forall|n: Seq<char>| old(self)@.contains(n) <==> exists|i: int| 0 <= i < before@.len() && #[trigger] before@[i]@ == n,
    {
        let before = self.members();
        if self.position(name).is_none() {
            let ghost old_names = self.names@;
            self.names.push(name.clone());
            assert(self@ =~= old(self)@.insert(name@)) by {
                assert forall|n: Seq<char>| self@.contains(n) implies old(self)@.insert(name@).contains(n) by {
                    let i = choose|i: int| 0 <= i < self.names@.len() && self.names@[i]@ == n;
                    if i < old_names.len() {
                        assert(self.names@[i] == old_names[i]);
                    }
                }
                assert forall|n: Seq<char>| old(self)@.insert(name@).contains(n) implies self@.contains(n) by {
                    if n == name@ {
                        assert(self.names@[old_names.len() as int]@ == n);
                    } else {
                        let i = choose|i: int| 0 <= i < old_names.len() && old_names[i]@ == n;
                        assert(self.names@[i] == old_names[i]);
                    }
                }
            }
        } else {
            assert(self@ =~= old(self)@.insert(name@));
        }
        before
    }

    /// Lets `name` out; afterwards `name` is not present.
    pub fn leave(&mut self, name: &String)
        requires
            old(self).wf(),
        ensures
            final(self).wf(),
            final(self)@ == old(self)@.remove(name@),
    {
        match self.position(name) {
            Some(i) => {
                let ghost old_names = self.names@;
                self.names.remove(i);
                assert(self@ =~= old(self)@.remove(name@)) by {
                    assert forall|n: Seq<char>| self@.contains(n) implies old(self)@.remove(name@).contains(n) by {
                        let k = choose|k: int| 0 <= k < self.names@.len() && self.names@[k]@ == n;
                        if k < i {
                            assert(self.names@[k] == old_names[k]);
                        } else {
                            assert(self.names@[k] == old_names[k + 1]);
                        }
                    }
                    assert forall|n: Seq<char>| old(self)@.remove(name@).contains(n) implies self@.contains(n) by {
                        let k = choose|k: int| 0 <= k < old_names.len() && old_names[k]@ == n;
                        if k < i {
                            assert(self.names@[k] == old_names[k]);
                        } else {
                            assert(self.names@[k - 1] == old_names[k]);
                        }
                    }
                }
            },
            None => {
                assert(self@ =~= old(self)@.remove(name@));
            },
        }
    }
}

/// Law: a name that joins and then leaves an empty-of-it room leaves the room as it was.
pub proof fn lemma_join_then_leave(room: Set<Seq<char>>, name: Seq<char>)
    requires
        !room.contains(name),
    ensures
        room.insert(name).remove(name) == room,
{
    assert(room.insert(name).remove(name) =~= room);
}

/// Law: a client is never shown a message sent under its own name.
pub proof fn lemma_own_message_hidden(name: String, text: String)
    ensures
        event_line(ChatEvent::Message { name, text }, name@) is None,
{
}

/// Law: the greeting says the client is the first one exactly when nobody was there.
pub proof fn lemma_first_one_here(present: Seq<Seq<char>>)
    ensures
        (greeting_text(present) == "* Greetings. You're the first one here.\n"@) <==> present.len() == 0,
{
    if present.len() > 0 {
        reveal_strlit("* Greetings. You're the first one here.\n");
        reveal_strlit("* Greetings. Who's here: ");
        let g = greeting_text(present);
        assert(g[13] == "* Greetings. Who's here: "@[13]);
        assert("* Greetings. You're the first one here.\n"@[13] != "* Greetings. Who's here: "@[13]);
    }
}

/// Law: two valid names joined are a valid name; so valid names have no length limit.
pub proof fn lemma_valid_names_concatenate(a: Seq<char>, b: Seq<char>)
    requires
        valid_name(a),
        valid_name(b),
    ensures
        valid_name(a + b),
{
    assert forall|i: int| 0 <= i < (a + b).len() implies is_alnum_char(#[trigger] (a + b)[i]) by {
        if i < a.len() {
            assert((a + b)[i] == a[i]);
        } else {
            assert((a + b)[i] == b[i - a.len()]);
        }
    }
}

/// Law: a single character is a valid name exactly when it is an ASCII letter or digit
/// (code ranges 48-57, 65-90, 97-122).
pub proof fn lemma_single_character_names(c: char)
    ensures
        valid_name(seq![c]) <==> ((48 <= c as u32 <= 57) || (65 <= c as u32 <= 90) || (97
            <= c as u32 <= 122)),
{
    assert(seq![c][0] == c);
}

/// Law: a valid name sent as a line, ending in a newline, is the name asked for.
pub proof fn lemma_name_line_gives_name(name: Seq<char>)
    requires
        valid_name(name),
    ensures
        trim_end_spec(name.push('\n')) == name,
        valid_name(trim_end_spec(name.push('\n'))),
{
    let line = name.push('\n');
    assert(line.drop_last() =~= name);
    assert(is_alnum_char(name[name.len() - 1]));
    assert(trim_end_spec(line) == trim_end_spec(name));
}

} // verus!
