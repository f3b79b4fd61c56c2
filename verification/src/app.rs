use crate::analysis::texts;
use vstd::prelude::*;

verus! {

/// The state of an editing session: the ciphertexts, the key as far as it is
/// known, the cursor and the bounds of the area it moves in.
pub struct App {
    /// The character entered last.
    pub input: Option<char>,
    /// Column of the cursor in the editor area.
    pub cursor_position_x: usize,
    /// Row of the cursor in the editor area.
    pub cursor_position_y: usize,
    pub min_x: usize,
    pub min_y: usize,
    pub max_x: usize,
    pub max_y: usize,
    /// The ciphertexts, in the order in which they are shown.
    pub ciphertexts: Vec<Vec<u8>>,
    /// The key: one slot for each position, known or not.
    pub partial_key: Vec<Option<u8>>,
    /// Name of the place where the result is meant to go.
    pub output: String,
}

/// What an `App` stands for: the same state, with numbers and sequences in
/// place of machine words and vectors.
pub struct Session {
    pub input: Option<char>,
    pub cursor_x: int,
    pub cursor_y: int,
    pub min_x: int,
    pub min_y: int,
    pub max_x: int,
    pub max_y: int,
    pub ciphertexts: Seq<Seq<u8>>,
    pub key: Seq<Option<u8>>,
    pub output: Seq<char>,
}

impl View for App {
    type V = Session;

    open spec fn view(&self) -> Session {
        Session {
            input: self.input,
            cursor_x: self.cursor_position_x as int,
            cursor_y: self.cursor_position_y as int,
            min_x: self.min_x as int,
            min_y: self.min_y as int,
            max_x: self.max_x as int,
            max_y: self.max_y as int,
            ciphertexts: texts(self.ciphertexts@),
            key: self.partial_key@,
            output: self.output@,
        }
    }
}

/// One step back on a ring of the positions `0..=max`.
pub open spec fn wrap_back(v: int, max: int) -> int {
    if v <= 0 {
        max
    } else {
        v - 1
    }
}

/// One step forward on a ring of the positions `0..=max`.
pub open spec fn wrap_forward(v: int, max: int) -> int {
    if v >= max {
        0
    } else {
        v + 1
    }
}

/// `k` steps forward on a ring of the positions `0..=max`.
pub open spec fn forward_by(v: int, max: int, k: nat) -> int
    decreases k,
{
    if k == 0 {
        v
    } else {
        wrap_forward(forward_by(v, max, (k - 1) as nat), max)
    }
}

/// `k` steps back on a ring of the positions `0..=max`.
pub open spec fn back_by(v: int, max: int, k: nat) -> int
    decreases k,
{
    if k == 0 {
        v
    } else {
        wrap_back(back_by(v, max, (k - 1) as nat), max)
    }
}

/// The number of display rows that a ciphertext of `len` bytes takes at a
/// given width: its full rows, and one more that is always there.
pub open spec fn rows_of(len: nat, width: int) -> int {
    len as int / width + 1
}

/// The display row on which ciphertext `i` begins.
pub open spec fn rows_before(cts: Seq<Seq<u8>>, width: int, i: int) -> int
    decreases i,
{
    if i <= 0 {
        0
    } else {
        rows_before(cts, width, i - 1) + rows_of(cts[i - 1].len(), width)
    }
}

/// The first ciphertext from `i` on that ends below display row `y`, or the
/// number of ciphertexts where none does.
pub open spec fn owner_from(cts: Seq<Seq<u8>>, width: int, y: int, i: int) -> int
    decreases cts.len() - i,
{
    if i < 0 || i >= cts.len() {
        cts.len() as int
    } else if y < rows_before(cts, width, i + 1) {
        i
    } else {
        owner_from(cts, width, y, i + 1)
    }
}

/// The low eight bits of a character's code.
pub open spec fn low_byte(c: char) -> u8 {
    (c as u32 % 256) as u8
}

/// A byte that shows as itself: a space or a visible ASCII character.
pub open spec fn printable(b: u8) -> bool {
    0x20 <= b <= 0x7e
}

/// One cell of a decryption: the plain character where the key byte is
/// known and gives a printable one, else nothing.
pub open spec fn decrypt_cell(k: Option<u8>, c: u8) -> Option<char> {
    match k {
        Some(k) => if printable(k ^ c) {
            Some((k ^ c) as char)
        } else {
            None
        },
        None => None,
    }
}

/// A ciphertext under a partial key: one cell for each of its bytes, empty
/// where the key has no slot for the byte.
pub open spec fn decrypt_row(key: Seq<Option<u8>>, ciphertext: Seq<u8>) -> Seq<Option<char>> {
    Seq::new(
        ciphertext.len(),
        |i: int|
            if i < key.len() {
                decrypt_cell(key[i], ciphertext[i])
            } else {
                None
            },
    )
}

/// The cells held by a list of rows.
pub open spec fn cells(rows: Seq<Vec<Option<char>>>) -> Seq<Seq<Option<char>>> {
    Seq::new(rows.len(), |i: int| rows[i]@)
}

impl Session {
    /// The cursor lies within the bounds.
    pub open spec fn cursor_in_bounds(self) -> bool {
        0 <= self.cursor_x <= self.max_x && 0 <= self.cursor_y <= self.max_y
    }

    /// The session after a step to the left, which leads from the first
    /// column to the last.
    pub open spec fn moved_left(self) -> Session {
        Session { cursor_x: wrap_back(self.cursor_x, self.max_x), ..self }
    }

    /// The session after a step to the right, which leads from the last
    /// column to the first.
    pub open spec fn moved_right(self) -> Session {
        Session { cursor_x: wrap_forward(self.cursor_x, self.max_x), ..self }
    }

    /// The session after a step up, which leads from the first row to the
    /// last.
    pub open spec fn moved_up(self) -> Session {
        Session { cursor_y: wrap_back(self.cursor_y, self.max_y), ..self }
    }

    /// The session after a step down, which leads from the last row to the
    /// first.
    pub open spec fn moved_down(self) -> Session {
        Session { cursor_y: wrap_forward(self.cursor_y, self.max_y), ..self }
    }

    /// The session with the cursor in the first column of its row.
    pub open spec fn moved_home(self) -> Session {
        Session { cursor_x: 0, ..self }
    }

    /// The session with the cursor in the last column of its row.
    pub open spec fn moved_end(self) -> Session {
        Session { cursor_x: self.max_x, ..self }
    }

    /// A screen position lies within the bounds.
    pub open spec fn on_screen(self, x: int, y: int) -> bool {
        self.min_x <= x <= self.max_x && self.min_y <= y <= self.max_y
    }

    /// The session after a jump to a screen position: one outside the bounds
    /// changes nothing.
    pub open spec fn moved_to(self, x: int, y: int) -> Session {
        if self.on_screen(x, y) {
            Session { cursor_x: x - self.min_x, cursor_y: y - self.min_y, ..self }
        } else {
            self
        }
    }

    /// The session after `k` steps to the right.
    pub open spec fn moved_right_by(self, k: nat) -> Session {
        Session { cursor_x: forward_by(self.cursor_x, self.max_x, k), ..self }
    }

    /// The session after `k` steps to the left.
    pub open spec fn moved_left_by(self, k: nat) -> Session {
        Session { cursor_x: back_by(self.cursor_x, self.max_x, k), ..self }
    }

    /// The session after `k` steps down.
    pub open spec fn moved_down_by(self, k: nat) -> Session {
        Session { cursor_y: forward_by(self.cursor_y, self.max_y, k), ..self }
    }

    /// The session after `k` steps up.
    pub open spec fn moved_up_by(self, k: nat) -> Session {
        Session { cursor_y: back_by(self.cursor_y, self.max_y, k), ..self }
    }

    /// The ciphertext and the byte offset under the cursor. Ciphertexts
    /// follow one another row by row; a cursor below the last of them stands
    /// for its own row and column.
    pub open spec fn position(self) -> (int, int) {
        let i = owner_from(self.ciphertexts, self.max_x, self.cursor_y, 0);
        if i < self.ciphertexts.len() {
            (
                i,
                (self.cursor_y - rows_before(self.ciphertexts, self.max_x, i)) * self.max_x
                    + self.cursor_x,
            )
        } else {
            (self.cursor_y, self.cursor_x)
        }
    }

    /// The cursor stands on a byte of a ciphertext for which the key has a
    /// slot. Without a width of at least one column it stands on none.
    pub open spec fn on_target(self) -> bool {
        let (i, o) = self.position();
        self.max_x >= 1 && 0 <= i < self.ciphertexts.len() && 0 <= o
            < self.ciphertexts[i].len() && o < self.key.len()
    }

    /// The session after a character is entered: on a target the key slot
    /// at the byte offset becomes the byte that decrypts the ciphertext byte
    /// to the character, and the cursor moves right; elsewhere nothing
    /// changes.
    pub open spec fn entered(self, c: char) -> Session {
        if self.on_target() {
            let (i, o) = self.position();
            (Session {
                input: Some(c),
                key: self.key.update(o, Some(self.ciphertexts[i][o] ^ low_byte(c))),
                ..self
            }).moved_right()
        } else {
            self
        }
    }

    /// The session after a deletion: away from the first column, and where
    /// the key has a slot at the cursor's column, that slot is cleared, and
    /// the cursor moves left if asked to; elsewhere nothing changes.
    pub open spec fn deleted(self, shift_left: bool) -> Session {
        if self.cursor_x != 0 && self.cursor_x < self.key.len() {
            let cleared = Session { key: self.key.update(self.cursor_x, None), ..self };
            if shift_left {
                cleared.moved_left()
            } else {
                cleared
            }
        } else {
            self
        }
    }

    /// Every ciphertext under the key.
    pub open spec fn decrypted_rows(self) -> Seq<Seq<Option<char>>> {
        Seq::new(self.ciphertexts.len(), |i: int| decrypt_row(self.key, self.ciphertexts[i]))
    }

    /// The session with the bounds that an area of the screen gives: the
    /// frame of one cell is left out.
    pub open spec fn with_viewport(self, x: int, y: int, width: int, height: int) -> Session {
        Session {
            min_x: x + 1,
            min_y: y + 1,
            max_x: width - x - 1,
            max_y: height - y - 1,
            ..self
        }
    }
}

impl App {
    /// A session on the given ciphertexts and key, with the cursor at the
    /// origin and all bounds at zero.
    pub fn new(ciphertexts: Vec<Vec<u8>>, partial_key: Vec<Option<u8>>, output: String) -> (app:
        App)
        ensures
            app.ciphertexts == ciphertexts,
            app.partial_key == partial_key,
            app.output == output,
            app@.cursor_in_bounds(),
            app@ == (Session {
                input: None,
                cursor_x: 0,
                cursor_y: 0,
                min_x: 0,
                min_y: 0,
                max_x: 0,
                max_y: 0,
                ciphertexts: texts(ciphertexts@),
                key: partial_key@,
                output: output@,
            }),
    {
        App {
            ciphertexts,
            partial_key,
            output,
            input: None,
            cursor_position_x: 0,
            cursor_position_y: 0,
            min_x: 0,
            min_y: 0,
            max_x: 0,
            max_y: 0,
        }
    }

    /// Moves the cursor one column to the left, from the first column to the
    /// last.
    pub fn move_cursor_left(&mut self)
        ensures
            final(self)@ == old(self)@.moved_left(),
    {
        self.cursor_position_x = if self.cursor_position_x == 0 {
            self.max_x
        } else {
            self.cursor_position_x - 1
        };
    }

    /// Moves the cursor one column to the right, from the last column to the
    /// first.
    pub fn move_cursor_right(&mut self)
        ensures
            final(self)@ == old(self)@.moved_right(),
    {
        self.cursor_position_x = if self.cursor_position_x >= self.max_x {
            0
        } else {
            self.cursor_position_x + 1
        };
    }

    /// Moves the cursor one row up, from the first row to the last.
    pub fn move_cursor_up(&mut self)
        ensures
            final(self)@ == old(self)@.moved_up(),
    {
        self.cursor_position_y = if self.cursor_position_y == 0 {
            self.max_y
        } else {
            self.cursor_position_y - 1
        };
    }

    /// Moves the cursor one row down, from the last row to the first.
    pub fn move_cursor_down(&mut self)
        ensures
            final(self)@ == old(self)@.moved_down(),
    {
        self.cursor_position_y = if self.cursor_position_y >= self.max_y {
            0
        } else {
            self.cursor_position_y + 1
        };
    }

    /// Moves the cursor to the first column.
    pub fn move_cursor_home(&mut self)
        ensures
            final(self)@ == old(self)@.moved_home(),
    {
        self.cursor_position_x = 0;
    }

    /// Moves the cursor to the last column.
    pub fn move_cursor_end(&mut self)
        ensures
            final(self)@ == old(self)@.moved_end(),
    {
        self.cursor_position_x = self.max_x;
    }

    /// Moves the cursor to a screen position. A position outside the bounds
    /// leaves the session as it is.
    pub fn move_cursor_to_position(&mut self, x: usize, y: usize)
        ensures
            final(self)@ == old(self)@.moved_to(x as int, y as int),
            !old(self)@.on_screen(x as int, y as int) ==> final(self)@ == old(self)@,
    {
        if x < self.min_x || x > self.max_x || y < self.min_y || y > self.max_y {
            return ;
        }
        self.cursor_position_x = x - self.min_x;
        self.cursor_position_y = y - self.min_y;
    }

    /// The ciphertext and byte offset under the cursor, or nothing where the
    /// offset is beyond what the machine can count.
    fn locate(&self) -> (r: Option<(usize, usize)>)
        requires
            self.max_x >= 1,
        ensures
            match r {
                Some((i, o)) => (i as int, o as int) == self@.position(),
                None => self@.position().1 > usize::MAX,
            },
    {
        let ghost cts = texts(self.ciphertexts@);
        let ghost width = self.max_x as int;
        let ghost y = self.cursor_position_y as int;
        let mut current_start: usize = 0;
        let mut i: usize = 0;
        while i < self.ciphertexts.len()
            invariant
                i <= self.ciphertexts.len(),
                cts == texts(self.ciphertexts@),
                width == self.max_x as int,
                width >= 1,
                y == self.cursor_position_y as int,
                current_start == rows_before(cts, width, i as int),
                current_start <= y,
                owner_from(cts, width, y, 0) == owner_from(cts, width, y, i as int),
            decreases self.ciphertexts.len() - i,
        {
            let rows_per_ciphertext: usize = self.ciphertexts[i].len() / self.max_x;
            let multiplier: usize = self.cursor_position_y - current_start;
            assert(rows_before(cts, width, i + 1) == current_start + rows_per_ciphertext + 1);
            if multiplier <= rows_per_ciphertext {
                assert(multiplier * width <= cts[i as int].len()) by (nonlinear_arith)
                    requires
                        0 <= multiplier <= rows_per_ciphertext,
                        width >= 1,
                        rows_per_ciphertext == cts[i as int].len() as int / width,
                ;
                let base: usize = multiplier * self.max_x;
                if self.cursor_position_x > usize::MAX - base {
                    return None;
                }
                return Some((i, base + self.cursor_position_x));
            }
            current_start = current_start + rows_per_ciphertext + 1;
            i += 1;
        }
        Some((self.cursor_position_y, self.cursor_position_x))
    }

    /// Maps the cursor to the index of the ciphertext under it and the
    /// offset of the byte under it in that ciphertext. The width of a row is
    /// `max_x`, which must not be zero, and the offset must fit a machine
    /// word.
    pub fn get_ciphertext_position(&self) -> (r: (usize, usize))
        requires
            self.max_x >= 1,
            self@.position().1 <= usize::MAX,
        ensures
            (r.0 as int, r.1 as int) == self@.position(),
    {
        match self.locate() {
            Some(position) => position,
            None => (self.cursor_position_y, self.cursor_position_x),
        }
    }

    /// Sets the key slot under the cursor so that the ciphertext byte there
    /// decrypts to `c`. Says whether the cursor was on a target.
    fn update_ciphertexts(&mut self, c: char) -> (done: bool)
        ensures
            done == old(self)@.on_target(),
            done ==> final(self)@ == (Session {
                key: old(self)@.key.update(
                    old(self)@.position().1,
                    Some(
                        old(self)@.ciphertexts[old(self)@.position().0][old(self)@.position().1]
                            ^ low_byte(c),
                    ),
                ),
                ..old(self)@
            }),
            !done ==> final(self)@ == old(self)@,
    {
        if self.max_x == 0 {
            return false;
        }
        let slots: usize = self.partial_key.len();
        let (text_index, char_index) = match self.locate() {
            Some(position) => position,
            None => {
                return false;
            },
        };
        if char_index >= slots {
            return false;
        }
        if text_index >= self.ciphertexts.len() {
            return false;
        }
        if char_index >= self.ciphertexts[text_index].len() {
            return false;
        }
        let code: u32 = c as u32;
        let byte: u8 = (code % 256) as u8;
        self.partial_key[char_index] = Some(self.ciphertexts[text_index][char_index] ^ byte);
        true
    }

    /// Enters a character at the cursor: the key slot at the byte offset
    /// under the cursor is set so that the byte under the cursor decrypts to
    /// the character, and the cursor moves one column to the right. Where
    /// the cursor is on no byte, the key has no slot for it, or the rows
    /// have no width, nothing happens.
    pub fn enter_char(&mut self, new_char: char)
        ensures
            final(self)@ == old(self)@.entered(new_char),
    {
        if self.update_ciphertexts(new_char) {
            self.input = Some(new_char);
            self.move_cursor_right();
        }
    }

    /// Clears the key slot at the cursor's column and, if `shift_left` is
    /// set, moves the cursor left. In the first column, or where the key has
    /// no slot at that column, nothing happens.
    pub fn delete_char(&mut self, shift_left: bool)
        ensures
            final(self)@ == old(self)@.deleted(shift_left),
    {
        let is_not_cursor_leftmost = self.cursor_position_x != 0;
        if is_not_cursor_leftmost && self.cursor_position_x < self.partial_key.len() {
            self.partial_key[self.cursor_position_x] = None;
            if shift_left {
                self.move_cursor_left()
            };
        }
    }

    /// Decrypts every ciphertext with the key as far as it is known.
    pub fn decrypted_rows(&self) -> (rows: Vec<Vec<Option<char>>>)
        ensures
            cells(rows@) == self@.decrypted_rows(),
    {
        let mut rows: Vec<Vec<Option<char>>> = Vec::new();
        let mut i: usize = 0;
        while i < self.ciphertexts.len()
            invariant
                i <= self.ciphertexts.len(),
                rows.len() == i,
                forall|j: int|
                    0 <= j < i ==> (#[trigger] rows@[j])@ == decrypt_row(
                        self.partial_key@,
                        self.ciphertexts@[j]@,
                    ),
            decreases self.ciphertexts.len() - i,
        {
            rows.push(partial_decrypt(&self.partial_key, &self.ciphertexts[i]));
            i += 1;
        }
        assert(cells(rows@) =~= self@.decrypted_rows());
        rows
    }

    /// Takes the bounds of the cursor from the area of the screen in which
    /// the decryption is shown, given by its corner and its size. The area
    /// must hold its frame: its size exceeds its corner's offset each way.
    /// The cursor stays where it is.
    pub fn set_viewport(&mut self, x: u16, y: u16, width: u16, height: u16)
        requires
            x < width,
            y < height,
        ensures
            final(self)@ == old(self)@.with_viewport(
                x as int,
                y as int,
                width as int,
                height as int,
            ),
    {
        self.min_x = x as usize + 1;
        self.min_y = y as usize + 1;
        self.max_x = width as usize - x as usize - 1;
        self.max_y = height as usize - y as usize - 1;
    }
}

/// Decrypts a ciphertext with a partial key, byte by byte. A byte with an
/// unknown or missing key byte, or one that does not decrypt to a printable
/// character, gives an empty cell.
pub fn partial_decrypt(key: &Vec<Option<u8>>, ciphertext: &Vec<u8>) -> (message: Vec<
    Option<char>,
>)
    ensures
        message@ == decrypt_row(key@, ciphertext@),
{
    let n: usize = ciphertext.len();
    let mut message: Vec<Option<char>> = Vec::new();
    let mut i: usize = 0;
    while i < n
        invariant
            i <= n,
            n == ciphertext.len(),
            message.len() == i,
            forall|j: int| 0 <= j < i ==> message@[j] == decrypt_row(key@, ciphertext@)[j],
        decreases n - i,
    {
        let slot: Option<u8> = if i < key.len() {
            key[i]
        } else {
            None
        };
        let cell: Option<char> = match slot {
            Some(c) => {
                let r: u8 = c ^ ciphertext[i];
                if r >= 0x20 && r <= 0x7e {
                    Some(r as char)
                } else {
                    None
                }
            },
            None => None,
        };
        message.push(cell);
        i += 1;
    }
    assert(message@ =~= decrypt_row(key@, ciphertext@));
    message
}

/// On a ring of `max + 1` positions a step forward adds one modulo the
/// ring's size, and a step back takes one away.
proof fn lemma_wrap_step(v: int, max: int)
    requires
        0 <= max,
    ensures
        wrap_forward(v % (max + 1), max) == (v + 1) % (max + 1),
        wrap_back(v % (max + 1), max) == (v - 1) % (max + 1),
{
    let m = max + 1;
    let q = v / m;
    let r = v % m;
    vstd::arithmetic::div_mod::lemma_fundamental_div_mod(v, m);
    vstd::arithmetic::div_mod::lemma_mod_bound(v, m);
    if r == max {
        assert(v + 1 == (q + 1) * m + 0) by (nonlinear_arith)
            requires
                v == m * q + r,
                r == m - 1,
        ;
        vstd::arithmetic::div_mod::lemma_fundamental_div_mod_converse(v + 1, m, q + 1, 0);
    } else {
        vstd::arithmetic::div_mod::lemma_fundamental_div_mod_converse(v + 1, m, q, r + 1);
    }
    if r == 0 {
        assert(v - 1 == (q - 1) * m + max) by (nonlinear_arith)
            requires
                v == m * q + r,
                r == 0,
                max == m - 1,
        ;
        vstd::arithmetic::div_mod::lemma_fundamental_div_mod_converse(v - 1, m, q - 1, max);
    } else {
        vstd::arithmetic::div_mod::lemma_fundamental_div_mod_converse(v - 1, m, q, r - 1);
    }
}

/// From a position on the ring, `k` steps forward lead to the position `k`
/// further on modulo the ring's size.
pub proof fn lemma_forward_by(v: int, max: int, k: nat)
    requires
        0 <= v <= max,
    ensures
        forward_by(v, max, k) == (v + k) % (max + 1),
    decreases k,
{
    if k > 0 {
        lemma_forward_by(v, max, (k - 1) as nat);
        lemma_wrap_step(v + k - 1, max);
    } else {
        vstd::arithmetic::div_mod::lemma_small_mod(v as nat, (max + 1) as nat);
    }
}

/// From a position on the ring, `k` steps back lead to the position `k`
/// before modulo the ring's size.
pub proof fn lemma_back_by(v: int, max: int, k: nat)
    requires
        0 <= v <= max,
    ensures
        back_by(v, max, k) == (v - k) % (max + 1),
    decreases k,
{
    if k > 0 {
        lemma_back_by(v, max, (k - 1) as nat);
        lemma_wrap_step(v - k + 1, max);
    } else {
        vstd::arithmetic::div_mod::lemma_small_mod(v as nat, (max + 1) as nat);
    }
}

/// Several steps are single steps one after another: no step leaves the
/// session as it is, and one step more is a step from where the steps
/// before it led.
pub proof fn lemma_moves_by_steps(s: Session, k: nat)
    ensures
        s.moved_right_by(0) == s,
        s.moved_left_by(0) == s,
        s.moved_down_by(0) == s,
        s.moved_up_by(0) == s,
        s.moved_right_by(k + 1) == s.moved_right_by(k).moved_right(),
        s.moved_left_by(k + 1) == s.moved_left_by(k).moved_left(),
        s.moved_down_by(k + 1) == s.moved_down_by(k).moved_down(),
        s.moved_up_by(k + 1) == s.moved_up_by(k).moved_up(),
{
}

/// Cursor movement is cyclic. From a cursor within the bounds, `k` steps
/// right or down lead `k` columns or rows further on, and `k` steps left or
/// up as many back, modulo the number of columns or rows.
pub proof fn lemma_moves_by(s: Session, k: nat)
    requires
        s.cursor_in_bounds(),
    ensures
        s.moved_right_by(k) == (Session { cursor_x: (s.cursor_x + k) % (s.max_x + 1), ..s }),
        s.moved_left_by(k) == (Session { cursor_x: (s.cursor_x - k) % (s.max_x + 1), ..s }),
        s.moved_down_by(k) == (Session { cursor_y: (s.cursor_y + k) % (s.max_y + 1), ..s }),
        s.moved_up_by(k) == (Session { cursor_y: (s.cursor_y - k) % (s.max_y + 1), ..s }),
{
    lemma_forward_by(s.cursor_x, s.max_x, k);
    lemma_back_by(s.cursor_x, s.max_x, k);
    lemma_forward_by(s.cursor_y, s.max_y, k);
    lemma_back_by(s.cursor_y, s.max_y, k);
}

/// As many steps one way as there are columns, or rows, lead back to where
/// the cursor was, from any cursor within the bounds.
pub proof fn lemma_moves_cycle(s: Session)
    requires
        s.cursor_in_bounds(),
    ensures
        s.moved_right_by((s.max_x + 1) as nat) == s,
        s.moved_left_by((s.max_x + 1) as nat) == s,
        s.moved_down_by((s.max_y + 1) as nat) == s,
        s.moved_up_by((s.max_y + 1) as nat) == s,
{
    let columns = s.max_x + 1;
    let rows = s.max_y + 1;
    lemma_moves_by(s, columns as nat);
    lemma_moves_by(s, rows as nat);
    vstd::arithmetic::div_mod::lemma_mod_add_multiples_vanish(s.cursor_x, columns);
    vstd::arithmetic::div_mod::lemma_mod_sub_multiples_vanish(s.cursor_x, columns);
    vstd::arithmetic::div_mod::lemma_small_mod(s.cursor_x as nat, columns as nat);
    vstd::arithmetic::div_mod::lemma_mod_add_multiples_vanish(s.cursor_y, rows);
    vstd::arithmetic::div_mod::lemma_mod_sub_multiples_vanish(s.cursor_y, rows);
    vstd::arithmetic::div_mod::lemma_small_mod(s.cursor_y as nat, rows as nat);
}

/// Ciphertexts begin on rows that grow: each takes at least one row.
pub proof fn lemma_rows_before_grows(cts: Seq<Seq<u8>>, width: int, i: int, j: int)
    requires
        width >= 1,
        0 <= i <= j <= cts.len(),
    ensures
        0 <= rows_before(cts, width, i),
        rows_before(cts, width, i) + (j - i) <= rows_before(cts, width, j),
    decreases j,
{
    if j > 0 {
        let len = cts[j - 1].len() as int;
        assert(len / width >= 0) by (nonlinear_arith)
            requires
                width >= 1,
                len >= 0,
        ;
        if i < j {
            lemma_rows_before_grows(cts, width, i, j - 1);
        } else {
            lemma_rows_before_grows(cts, width, i - 1, j - 1);
        }
    }
}

/// The search for the ciphertext under a row, begun at or before that
/// ciphertext, finds it.
proof fn lemma_owner_from(cts: Seq<Seq<u8>>, width: int, y: int, start: int, i: int)
    requires
        width >= 1,
        0 <= start <= i <= cts.len(),
        rows_before(cts, width, i) <= y,
        i < cts.len() ==> y < rows_before(cts, width, i + 1),
    ensures
        owner_from(cts, width, y, start) == i,
    decreases i - start,
{
    if start < i {
        lemma_rows_before_grows(cts, width, start + 1, i);
        lemma_owner_from(cts, width, y, start + 1, i);
    }
}

/// The mapping from cursor to byte is exact. A cursor on one of the rows of
/// ciphertext `i` maps to that ciphertext, at the offset that its row within
/// the ciphertext and its column give.
pub proof fn lemma_position_in_ciphertext(s: Session, i: int)
    requires
        s.max_x >= 1,
        0 <= i < s.ciphertexts.len(),
        rows_before(s.ciphertexts, s.max_x, i) <= s.cursor_y < rows_before(
            s.ciphertexts,
            s.max_x,
            i + 1,
        ),
    ensures
        s.position() == (
            i,
            (s.cursor_y - rows_before(s.ciphertexts, s.max_x, i)) * s.max_x + s.cursor_x,
        ),
{
    lemma_owner_from(s.ciphertexts, s.max_x, s.cursor_y, 0, i);
}

/// A cursor below the rows of every ciphertext maps to its own row and
/// column.
pub proof fn lemma_position_below(s: Session)
    requires
        s.max_x >= 1,
        rows_before(s.ciphertexts, s.max_x, s.ciphertexts.len() as int) <= s.cursor_y,
    ensures
        s.position() == (s.cursor_y, s.cursor_x),
{
    lemma_owner_from(s.ciphertexts, s.max_x, s.cursor_y, 0, s.ciphertexts.len() as int);
}

/// A character is printable ASCII: a space or a visible character.
pub open spec fn printable_char(c: char) -> bool {
    0x20 <= c as u32 <= 0x7e
}

/// Entering a character and decrypting agree. After a printable character
/// is entered on a target, the decryption shows that character in the row
/// and at the offset where the cursor stood, and every cell at another
/// offset is as it was.
pub proof fn lemma_enter_then_decrypt(s: Session, c: char)
    requires
        s.on_target(),
        printable_char(c),
    ensures
        s.entered(c).decrypted_rows()[s.position().0][s.position().1] == Some(c),
        forall|i: int, o: int|
            0 <= i < s.ciphertexts.len() && 0 <= o < s.decrypted_rows()[i].len() && o
                != s.position().1 ==> #[trigger] s.entered(c).decrypted_rows()[i][o]
                == s.decrypted_rows()[i][o],
{
    let (i, o) = s.position();
    let after = s.entered(c);
    let b = s.ciphertexts[i][o];
    let e = low_byte(c);
    let k = b ^ e;
    assert(after.key[o] == Some(k));
    assert(k ^ b == e) by (bit_vector)
        requires
            k == b ^ e,
    ;
    assert(e as u32 == c as u32);
    assert(e as char == c);
    assert(after.decrypted_rows()[i] == decrypt_row(after.key, s.ciphertexts[i]));
    assert forall|j: int, q: int|
        0 <= j < s.ciphertexts.len() && 0 <= q < s.decrypted_rows()[j].len() && q
            != o implies #[trigger] after.decrypted_rows()[j][q] == s.decrypted_rows()[j][q] by {
        if q < s.key.len() {
            assert(after.key[q] == s.key[q]);
        }
    }
}

/// Every operation on a session keeps the cursor within the bounds.
pub proof fn lemma_cursor_stays_in_bounds(s: Session, c: char, shift_left: bool, x: int, y: int)
    requires
        s.cursor_in_bounds(),
        0 <= s.min_x,
        0 <= s.min_y,
    ensures
        s.moved_left().cursor_in_bounds(),
        s.moved_right().cursor_in_bounds(),
        s.moved_up().cursor_in_bounds(),
        s.moved_down().cursor_in_bounds(),
        s.moved_home().cursor_in_bounds(),
        s.moved_end().cursor_in_bounds(),
        s.moved_to(x, y).cursor_in_bounds(),
        s.entered(c).cursor_in_bounds(),
        s.deleted(shift_left).cursor_in_bounds(),
{
}

} // verus!
