use vstd::prelude::*;

use crate::device::Device;
use crate::error::Status;
use crate::queue::Queue;
use crate::session::event::Event;

verus! {

/// A text console: an output device, and the input events waiting to be read.
pub struct Console<D: Device> {
    output_device: D,
    event_queue: Queue<Event>,
}

/// A colour of the console, by components.
#[derive(Debug, Clone, Copy, PartialEq, Eq, Structural)]
pub struct Color {
    pub red: u8,
    pub green: u8,
    pub blue: u8,
}

pub const STYLE_RESET: usize = 0;

pub const STYLE_BOLD: usize = 1;

pub const STYLE_DIM: usize = 2;

pub const STYLE_UNDERLINE: usize = 4;

pub const STYLE_STRIKETRHOUGH: usize = 8;

pub const IOCTRL_CLEAR: usize = 0;

pub const IOCTRL_SET_ATTRIBUTE: usize = 1;

pub const IOCTRL_SET_FOREGROUND_COLOR: usize = 2;

pub const IOCTRL_SET_BACKGROUND_COLOR: usize = 3;

pub const IOCTRL_SET_CURSOR_X: usize = 4;

pub const IOCTRL_SET_CURSOR_Y: usize = 5;

pub const IOCTRL_GET_WIDTH: usize = 6;

pub const IOCTRL_GET_HEIGHT: usize = 7;

/// The colour packed as 0xRRGGBB.
pub open spec fn packed(c: Color) -> usize {
    (c.blue + 256 * c.green + 65536 * c.red) as usize
}

impl<D: Device> Console<D> {
    pub closed spec fn wf(&self) -> bool {
        self.event_queue.wf()
    }

    /// The input events waiting, oldest first.
    pub closed spec fn events(&self) -> Seq<Event> {
        self.event_queue@
    }

    /// The output device.
    pub closed spec fn device(&self) -> D {
        self.output_device
    }

    /// A console that writes to `output_device`, with no events waiting.
    pub fn new(output_device: D) -> (r: Self)
        ensures
            r.wf(),
            r.events() == Seq::<Event>::empty(),
            r.device() == output_device,
    {
        Console { output_device, event_queue: Queue::new() }
    }

    /// Writes `buffer` to the output device.
    pub fn write(&mut self, buffer: &[u8]) -> (r: Result<(), Status>)
        requires
            old(self).wf(),
        ensures
            final(self).wf(),
            final(self).events() == old(self).events(),
            final(self).device().commands() == old(self).device().commands(),
            forall|a: int| a != 0 ==> #[trigger] final(self).device().block(a) == old(self).device().block(a),
            r is Ok ==> final(self).device().block(0) == buffer@,
    {
        let data = vstd::slice::slice_to_vec(buffer);
        self.output_device.write(0, &data)
    }

    /// Writes the UTF-8 bytes of `string` to the output device.
    pub fn write_str(&mut self, string: &str) -> (r: Result<(), Status>)
        requires
            old(self).wf(),
        ensures
            final(self).wf(),
            final(self).events() == old(self).events(),
            final(self).device().commands() == old(self).device().commands(),
            forall|a: int| a != 0 ==> #[trigger] final(self).device().block(a) == old(self).device().block(a),
            r is Ok ==> final(self).device().block(0) == vstd::utf8::encode_utf8(string@),
    {
        self.write(string.as_bytes())
    }

    /// Sends one control command to the output device.
    fn command(&mut self, command: usize, argument: usize) -> (r: Result<usize, Status>)
        requires
            old(self).wf(),
        ensures
            final(self).wf(),
            final(self).events() == old(self).events(),
            final(self).device().commands() == old(self).device().commands().push((command, argument)),
            forall|a: int| #[trigger] final(self).device().block(a) == old(self).device().block(a),
    {
        self.output_device.ioctrl(command, argument)
    }

    /// Clears the screen.
    pub fn clear(&mut self) -> (r: Result<(), Status>)
        requires
            old(self).wf(),
        ensures
            final(self).wf(),
            final(self).events() == old(self).events(),
            final(self).device().commands() == old(self).device().commands().push((IOCTRL_CLEAR, 0)),
            forall|a: int| #[trigger] final(self).device().block(a) == old(self).device().block(a),
    {
        match self.command(IOCTRL_CLEAR, 0) {
            Ok(_) => Ok(()),
            Err(e) => Err(e),
        }
    }

    /// Sets the text attribute (a combination of the `STYLE_` flags).
    pub fn set_attribute(&mut self, attribute: usize) -> (r: Result<(), Status>)
        requires
            old(self).wf(),
        ensures
            final(self).wf(),
            final(self).events() == old(self).events(),
            final(self).device().commands() == old(self).device().commands().push((IOCTRL_SET_ATTRIBUTE, attribute)),
            forall|a: int| #[trigger] final(self).device().block(a) == old(self).device().block(a),
    {
        match self.command(IOCTRL_SET_ATTRIBUTE, attribute) {
            Ok(_) => Ok(()),
            Err(e) => Err(e),
        }
    }

    /// Sets the text colour.
    pub fn set_foreground_color(&mut self, color: Color) -> (r: Result<(), Status>)
        requires
            old(self).wf(),
        ensures
            final(self).wf(),
            final(self).events() == old(self).events(),
            final(self).device().commands() == old(self).device().commands().push(
                (IOCTRL_SET_FOREGROUND_COLOR, packed(color)),
            ),
            forall|a: int| #[trigger] final(self).device().block(a) == old(self).device().block(a),
    {
        match self.command(IOCTRL_SET_FOREGROUND_COLOR, color.as_usize()) {
            Ok(_) => Ok(()),
            Err(e) => Err(e),
        }
    }

    /// Sets the background colour.
    pub fn set_background_color(&mut self, color: Color) -> (r: Result<(), Status>)
        requires
            old(self).wf(),
        ensures
            final(self).wf(),
            final(self).events() == old(self).events(),
            final(self).device().commands() == old(self).device().commands().push(
                (IOCTRL_SET_BACKGROUND_COLOR, packed(color)),
            ),
            forall|a: int| #[trigger] final(self).device().block(a) == old(self).device().block(a),
    {
        match self.command(IOCTRL_SET_BACKGROUND_COLOR, color.as_usize()) {
            Ok(_) => Ok(()),
            Err(e) => Err(e),
        }
    }

    /// Moves the cursor to column `x` and row `y`; the row is not set when setting the
    /// column fails.
    pub fn set_cursor_pos(&mut self, x: usize, y: usize) -> (r: Result<(), Status>)
        requires
            old(self).wf(),
        ensures
            final(self).wf(),
            final(self).events() == old(self).events(),
            r is Ok ==> final(self).device().commands() == old(self).device().commands().push(
                (IOCTRL_SET_CURSOR_X, x),
            ).push((IOCTRL_SET_CURSOR_Y, y)),
            r is Err ==> final(self).device().commands() == old(self).device().commands().push((IOCTRL_SET_CURSOR_X, x))
                || final(self).device().commands() == old(self).device().commands().push(
                (IOCTRL_SET_CURSOR_X, x),
            ).push((IOCTRL_SET_CURSOR_Y, y)),
            forall|a: int| #[trigger] final(self).device().block(a) == old(self).device().block(a),
    {
        match self.command(IOCTRL_SET_CURSOR_X, x) {
            Ok(_) => {},
            Err(e) => {
                return Err(e);
            },
        }
        match self.command(IOCTRL_SET_CURSOR_Y, y) {
            Ok(_) => Ok(()),
            Err(e) => Err(e),
        }
    }

    /// The width of the screen, in characters, as the device reports it.
    pub fn get_width(&mut self) -> (r: Result<isize, Status>)
        requires
            old(self).wf(),
        ensures
            final(self).wf(),
            final(self).events() == old(self).events(),
            final(self).device().commands() == old(self).device().commands().push((IOCTRL_GET_WIDTH, 0)),
            forall|a: int| #[trigger] final(self).device().block(a) == old(self).device().block(a),
    {
        match self.command(IOCTRL_GET_WIDTH, 0) {
            Ok(v) => Ok(#[verifier::truncate] (v as isize)),
            Err(e) => Err(e),
        }
    }

    /// The height of the screen, in characters, as the device reports it.
    pub fn get_height(&mut self) -> (r: Result<isize, Status>)
        requires
            old(self).wf(),
        ensures
            final(self).wf(),
            final(self).events() == old(self).events(),
            final(self).device().commands() == old(self).device().commands().push((IOCTRL_GET_HEIGHT, 0)),
            forall|a: int| #[trigger] final(self).device().block(a) == old(self).device().block(a),
    {
        match self.command(IOCTRL_GET_HEIGHT, 0) {
            Ok(v) => Ok(#[verifier::truncate] (v as isize)),
            Err(e) => Err(e),
        }
    }

    /// Queues an input event.
    pub fn push_event(&mut self, event: Event)
        requires
            old(self).wf(),
            old(self).events().len() < usize::MAX,
        ensures
            final(self).wf(),
            final(self).events() == old(self).events().push(event),
            final(self).device() == old(self).device(),
    {
        self.event_queue.push(event);
    }

    /// Takes the oldest waiting input event, if any.
    pub fn peek_event(&mut self) -> (r: Option<Event>)
        requires
            old(self).wf(),
        ensures
            final(self).wf(),
            final(self).device() == old(self).device(),
            old(self).events().len() == 0 ==> r is None && final(self).events() == old(self).events(),
            old(self).events().len() > 0 ==> r == Some(old(self).events()[0]) && final(self).events()
                == old(self).events().drop_first(),
    {
        self.event_queue.pop()
    }
}

impl Color {
    pub fn new(red: u8, green: u8, blue: u8) -> (r: Self)
        ensures
            r == (Color { red, green, blue }),
    {
        Color { red, green, blue }
    }

    /// The colour packed as 0xRRGGBB in the low 24 bits of `val`.
    pub fn from_usize(val: usize) -> (r: Self)
        ensures
            r.red == (val / 65536) % 256,
            r.green == (val / 256) % 256,
            r.blue == val % 256,
    {
        proof {
            assert(((val >> 16usize) & 0xFF) == (val / 65536) % 256 && ((val >> 8usize) & 0xFF) == (val / 256) % 256 && (val
                & 0xFF) == val % 256) by (bit_vector);
        }
        Color {
            red: ((val >> 16usize) & 0xFF) as u8,
            green: ((val >> 8usize) & 0xFF) as u8,
            blue: (val & 0xFF) as u8,
        }
    }

    /// The colour halfway between two colours, each component rounded down.
    pub fn average(color1: &Color, color2: &Color) -> (r: Self)
        ensures
            r.red == (color1.red + color2.red) / 2,
            r.green == (color1.green + color2.green) / 2,
            r.blue == (color1.blue + color2.blue) / 2,
    {
        Color {
            red: (((color1.red as usize) + (color2.red as usize)) / 2) as u8,
            green: (((color1.green as usize) + (color2.green as usize)) / 2) as u8,
            blue: (((color1.blue as usize) + (color2.blue as usize)) / 2) as u8,
        }
    }

    /// The colour packed as 0xRRGGBB.
    pub fn as_usize(&self) -> (r: usize)
        ensures
            r == packed(*self),
    {
        let b = self.blue as usize;
        let g = self.green as usize;
        let red = self.red as usize;
        proof {
            assert(b | (g << 8usize) | (red << 16usize) == b + 256 * g + 65536 * red) by (bit_vector)
                requires
                    b < 256,
                    g < 256,
                    red < 256,
            ;
        }
        b | (g << 8usize) | (red << 16usize)
    }
}

/// Packing a colour and reading it back gives the colour.
pub proof fn lemma_color_round_trip(c: Color)
    ensures
        (packed(c) / 65536) % 256 == c.red,
        (packed(c) / 256) % 256 == c.green,
        packed(c) % 256 == c.blue,
{
    let v = c.blue + 256 * c.green + 65536 * c.red;
    assert(packed(c) == v);
    assert((v / 65536) % 256 == c.red && (v / 256) % 256 == c.green && v % 256 == c.blue) by (nonlinear_arith)
        requires
            v == c.blue + 256 * c.green + 65536 * c.red,
            0 <= c.blue < 256,
            0 <= c.green < 256,
            0 <= c.red < 256,
    ;
}

} // verus!
