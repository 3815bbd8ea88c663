//! The keyboard: scancodes wait in a bounded queue filled by the
//! interrupt handler, and decoded keys edit the line being typed until
//! Enter ends it.
use vstd::prelude::*;
use crossbeam_queue::ArrayQueue;
use pc_keyboard::{layouts, DecodedKey, HandleControl, KeyEvent, PS2Keyboard, ScancodeSet1};

verus! {

/// A decoded key press.
#[derive(Debug, Clone, Copy, PartialEq, Eq, Structural)]
pub enum Key {
    /// A key that stands for a character.
    Unicode(char),
    /// Any other key (arrows, function keys, modifiers).
    Raw,
}

/// What the screen should do after a key.
#[derive(Debug, Clone, Copy, PartialEq, Eq, Structural)]
pub enum Echo {
    /// The line is complete: move to a new line.
    Newline,
    /// Erase the last character shown.
    Erase,
    /// Show this character.
    Show(char),
    /// Nothing to show.
    Nothing,
}

/// The line being typed.
pub struct LineEditor {
    chars: Vec<char>,
    done: bool,
}

impl View for LineEditor {
    type V = Seq<char>;

    closed spec fn view(&self) -> Seq<char> {
        self.chars@
    }
}

/// Backspace.
pub const BACKSPACE: char = '\x08';

impl LineEditor {
    pub closed spec fn is_done(&self) -> bool {
        self.done
    }

    /// An empty line.
    pub fn new() -> (r: LineEditor)
        ensures
            r@ == Seq::<char>::empty(),
            !r.is_done(),
    {
        LineEditor { chars: Vec::new(), done: false }
    }

    /// Takes one key: Enter finishes the line, backspace removes the last
    /// character if there is one, a character is appended, other keys are
    /// ignored.
    pub fn feed(&mut self, key: Key) -> (echo: Echo)
        requires
            !old(self).is_done(),
        ensures
            final(self)@ == edited(old(self)@, key),
            echo == echo_for(old(self)@, key),
            final(self).is_done() == (key == Key::Unicode('\n')),
    {
        match key {
            Key::Unicode(c) => {
                if c == '\n' {
                    self.done = true;
                    Echo::Newline
                } else if c == BACKSPACE {
                    if self.chars.len() > 0 {
                        self.chars.pop();
                        Echo::Erase
                    } else {
                        Echo::Nothing
                    }
                } else {
                    self.chars.push(c);
                    Echo::Show(c)
                }
            },
            Key::Raw => Echo::Nothing,
        }
    }

    /// The line typed so far.
    pub fn line(&self) -> (s: String)
        ensures
            s@ == self@,
    {
        crate::text::string_from_chars(&self.chars)
    }
}

/// The line after one key.
pub open spec fn edited(line: Seq<char>, key: Key) -> Seq<char> {
    match key {
        Key::Unicode(c) => if c == '\n' {
            line
        } else if c == BACKSPACE {
            if line.len() > 0 { line.drop_last() } else { line }
        } else {
            line.push(c)
        },
        Key::Raw => line,
    }
}

/// What the screen shows for one key.
pub open spec fn echo_for(line: Seq<char>, key: Key) -> Echo {
    match key {
        Key::Unicode(c) => if c == '\n' {
            Echo::Newline
        } else if c == BACKSPACE {
            if line.len() > 0 { Echo::Erase } else { Echo::Nothing }
        } else {
            Echo::Show(c)
        },
        Key::Raw => Echo::Nothing,
    }
}

/// pc-keyboard's key event: which key changed and how.
#[verifier::external_type_specification]
#[verifier::external_body]
pub struct ExKeyEvent(KeyEvent);

/// pc-keyboard's PS/2 decoder (`PS2Keyboard`) for a US 104-key layout
/// sending scancode set 1. Its type parameters are bound by pc-keyboard's
/// own traits, which Verus does not take, so it is held whole and opaque.
#[verifier::external_body]
struct Ps2Decoder {
    kb: PS2Keyboard<layouts::Us104Key, ScancodeSet1>,
}

/// A keyboard decoder: it keeps the state of multi-byte scancodes and of
/// the modifier keys, and remembers (for proofs) the bytes it was fed.
pub struct KeyDecoder {
    inner: Ps2Decoder,
    fed: Ghost<Seq<u8>>,
}

impl KeyDecoder {
    /// The scancode bytes fed to the decoder so far, oldest first.
    pub closed spec fn fed(&self) -> Seq<u8> {
        self.fed@
    }
}

/// pc-keyboard's `PS2Keyboard::new` for the US 104-key layout and
/// scancode set 1, with Ctrl combinations left unmapped; it has been fed
/// nothing.
#[verifier::external_body]
fn decoder_new() -> (d: KeyDecoder)
    ensures
        d.fed() == Seq::<u8>::empty(),
{
    KeyDecoder {
        inner: Ps2Decoder { kb: PS2Keyboard::new(ScancodeSet1::new(), layouts::Us104Key, HandleControl::Ignore) },
        fed: Ghost(Seq::empty()),
    }
}

/// pc-keyboard's `PS2Keyboard::add_byte`: feeds the decoder the scancode
/// byte and gives the key event it completes, if any; a byte it does not
/// know gives none. Which event comes depends on the decoder's state, so
/// nothing is stated of it; the call does not panic.
#[verifier::external_body]
fn decoder_add_byte(d: &mut KeyDecoder, scancode: u8) -> (r: Option<KeyEvent>)
    ensures
        final(d).fed() == old(d).fed().push(scancode),
    no_unwind
{
    match d.inner.kb.add_byte(scancode) {
        Ok(event) => event,
        Err(_) => None,
    }
}

/// pc-keyboard's `PS2Keyboard::process_keyevent`: the key an event gives
/// (a character as `Key::Unicode`, any other key as `Key::Raw`), or none
/// (a release, or a modifier). It depends on the modifiers held, so nothing
/// is stated of the key; no byte is fed, and the call does not panic.
#[verifier::external_body]
fn decoder_process(d: &mut KeyDecoder, event: KeyEvent) -> (r: Option<Key>)
    ensures
        final(d).fed() == old(d).fed(),
    no_unwind
{
    match d.inner.kb.process_keyevent(event) {
        Some(DecodedKey::Unicode(c)) => Some(Key::Unicode(c)),
        Some(DecodedKey::RawKey(_)) => Some(Key::Raw),
        None => None,
    }
}

impl KeyDecoder {
    /// A decoder in its initial state, fed nothing.
    pub fn us104() -> (d: KeyDecoder)
        ensures
            d.fed() == Seq::<u8>::empty(),
    {
        decoder_new()
    }
}

/// Feeds one scancode to the decoder: when it completes a key, the line
/// takes that key (see [`LineEditor::feed`]) and the key and what to echo
/// come back; otherwise the line is left as it was.
pub fn key_event(line: &mut LineEditor, d: &mut KeyDecoder, scancode: u8) -> (r: Option<(Key, Echo)>)
    requires
        !old(line).is_done(),
    ensures
        final(d).fed() == old(d).fed().push(scancode),
        r is None ==> *final(line) == *old(line),
        r matches Some((k, e)) ==> e == echo_for(old(line)@, k) && final(line)@ == edited(old(line)@, k)
            && final(line).is_done() == (k == Key::Unicode('\n')),
{
    match decoder_add_byte(d, scancode) {
        None => None,
        Some(event) => match decoder_process(d, event) {
            None => None,
            Some(k) => {
                let e = line.feed(k);
                Some((k, e))
            },
        },
    }
}

/// Typing a character and then backspace leaves the line as it was, and
/// the screen erases what it showed.
pub proof fn law_type_then_erase(line: Seq<char>, c: char)
    requires
        c != '\n',
        c != BACKSPACE,
    ensures
        edited(edited(line, Key::Unicode(c)), Key::Unicode(BACKSPACE)) == line,
        echo_for(line, Key::Unicode(c)) == Echo::Show(c),
        echo_for(edited(line, Key::Unicode(c)), Key::Unicode(BACKSPACE)) == Echo::Erase,
{
    assert(line.push(c).drop_last() =~= line);
}

/// crossbeam's bounded lock-free queue.
#[verifier::external_type_specification]
#[verifier::external_body]
#[verifier::reject_recursive_types(T)]
pub struct ExArrayQueue<T>(ArrayQueue<T>);

/// The bytes a queue holds, oldest first.
pub uninterp spec fn queue_items(q: ArrayQueue<u8>) -> Seq<u8>;

/// The capacity a queue was made with.
pub uninterp spec fn queue_capacity(q: ArrayQueue<u8>) -> nat;

/// crossbeam's `ArrayQueue::new`: an empty queue of the given capacity.
/// It panics on a zero capacity, or one whose next power of two above it
/// does not fit its index type; both are left out.
#[verifier::external_body]
fn queue_new(cap: usize) -> (q: ArrayQueue<u8>)
    requires
        0 < cap < 0x8000_0000,
    ensures
        queue_items(q) == Seq::<u8>::empty(),
        queue_capacity(q) == cap,
{
    ArrayQueue::new(cap)
}

/// crossbeam's `ArrayQueue::push`: appends the byte unless the queue is
/// full, in which case it hands the byte back and the queue is unchanged;
/// it does not panic. Taking the queue by `&mut` rules out other threads
/// meanwhile.
#[verifier::external_body]
fn queue_push(q: &mut ArrayQueue<u8>, b: u8) -> (r: Result<(), u8>)
    ensures
        queue_capacity(*final(q)) == queue_capacity(*old(q)),
        queue_items(*old(q)).len() < queue_capacity(*old(q)) ==> r is Ok
            && queue_items(*final(q)) == queue_items(*old(q)).push(b),
        queue_items(*old(q)).len() >= queue_capacity(*old(q)) ==> (r matches Err(x) && x == b)
            && queue_items(*final(q)) == queue_items(*old(q)),
    no_unwind
{
    q.push(b)
}

/// crossbeam's `ArrayQueue::pop`: takes the oldest byte, or gives `None`
/// on an empty queue; it does not panic. Taking the queue by `&mut` rules
/// out other threads meanwhile.
#[verifier::external_body]
fn queue_pop(q: &mut ArrayQueue<u8>) -> (r: Option<u8>)
    ensures
        queue_capacity(*final(q)) == queue_capacity(*old(q)),
        queue_items(*old(q)).len() == 0 ==> r == None::<u8> && queue_items(*final(q)) == queue_items(*old(q)),
        queue_items(*old(q)).len() > 0 ==> r == Some(queue_items(*old(q))[0])
            && queue_items(*final(q)) == queue_items(*old(q)).drop_first(),
    no_unwind
{
    q.pop()
}

/// How many scancodes wait at most; more are dropped.
pub const SCANCODE_QUEUE_CAPACITY: usize = 100;

/// The scancodes that the keyboard interrupt delivered and nobody has
/// read yet, oldest first.
pub struct ScancodeStream {
    queue: ArrayQueue<u8>,
}

impl ScancodeStream {
    /// The queue has the stream's capacity and holds no more than that.
    #[verifier::type_invariant]
    spec fn wf(self) -> bool {
        &&& queue_capacity(self.queue) == SCANCODE_QUEUE_CAPACITY
        &&& queue_items(self.queue).len() <= SCANCODE_QUEUE_CAPACITY
    }

    /// The scancodes waiting, oldest first.
    pub closed spec fn pending(self) -> Seq<u8> {
        queue_items(self.queue)
    }

    /// An empty stream.
    pub fn new() -> (r: ScancodeStream)
        ensures
            r.pending() == Seq::<u8>::empty(),
    {
        ScancodeStream { queue: queue_new(SCANCODE_QUEUE_CAPACITY) }
    }

    /// Queues a scancode from the interrupt handler. When the queue is
    /// full the scancode is dropped and `false` comes back.
    pub fn add_scancode(&mut self, scancode: u8) -> (accepted: bool)
        ensures
            accepted == (old(self).pending().len() < SCANCODE_QUEUE_CAPACITY),
            accepted ==> final(self).pending() == old(self).pending().push(scancode),
            !accepted ==> final(self).pending() == old(self).pending(),
            final(self).pending().len() <= SCANCODE_QUEUE_CAPACITY,
    {
        proof { use_type_invariant(&*self); }
        let r = queue_push(&mut self.queue, scancode);
        r.is_ok()
    }

    /// The oldest waiting scancode, if any.
    pub fn next_scancode(&mut self) -> (r: Option<u8>)
        ensures
            old(self).pending().len() == 0 ==> r == None::<u8> && final(self).pending() == old(self).pending(),
            old(self).pending().len() > 0 ==> r == Some(old(self).pending()[0])
                && final(self).pending() == old(self).pending().drop_first(),
    {
        proof { use_type_invariant(&*self); }
        queue_pop(&mut self.queue)
    }
}

/// Scancodes come out in the order they went in: queuing one more
/// scancode leaves what comes out before it unchanged, and on an empty
/// stream it is the next to come out.
pub proof fn law_scancodes_in_order(pending: Seq<u8>, scancode: u8)
    ensures
        pending.len() > 0 ==> pending.push(scancode)[0] == pending[0]
            && pending.push(scancode).drop_first() == pending.drop_first().push(scancode),
        pending.len() == 0 ==> pending.push(scancode)[0] == scancode
            && pending.push(scancode).drop_first() == Seq::<u8>::empty(),
{
    if pending.len() > 0 {
        assert(pending.push(scancode).drop_first() =~= pending.drop_first().push(scancode));
    } else {
        assert(pending.push(scancode).drop_first() =~= Seq::<u8>::empty());
    }
}

} // verus!
