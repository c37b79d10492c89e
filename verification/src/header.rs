use vstd::prelude::*;

use crate::frame::Bytes;
use crate::rle::compressed_spec;
use crate::rle::compress;

verus! {

/// The hexadecimal digit character for a value below 16, lower case.
pub open spec fn hex_digit(n: int) -> char {
    if n == 0 {
        '0'
    } else if n == 1 {
        '1'
    } else if n == 2 {
        '2'
    } else if n == 3 {
        '3'
    } else if n == 4 {
        '4'
    } else if n == 5 {
        '5'
    } else if n == 6 {
        '6'
    } else if n == 7 {
        '7'
    } else if n == 8 {
        '8'
    } else if n == 9 {
        '9'
    } else if n == 10 {
        'a'
    } else if n == 11 {
        'b'
    } else if n == 12 {
        'c'
    } else if n == 13 {
        'd'
    } else if n == 14 {
        'e'
    } else {
        'f'
    }
}

/// One byte as a hexadecimal literal: `0x` and two lower-case digits.
pub open spec fn hex_byte_chars(b: u8) -> Seq<char> {
    seq!['0', 'x', hex_digit(b as int / 16), hex_digit(b as int % 16)]
}

/// The separator written before byte `i` of the rendered list: a line
/// break after every 16 values, a plain comma and space otherwise.
pub open spec fn sep_chars(i: int) -> Seq<char> {
    if i % 16 == 0 {
        seq![',', '\n', ' ', ' ']
    } else {
        seq![',', ' ']
    }
}

/// The rendered list of byte literals: hexadecimal values separated
/// by commas, 16 to a line.
pub open spec fn body_chars(bytes: Seq<u8>) -> Seq<char>
    decreases bytes.len(),
{
    if bytes.len() == 0 {
        Seq::empty()
    } else if bytes.len() == 1 {
        hex_byte_chars(bytes[0])
    } else {
        body_chars(bytes.drop_last()) + sep_chars(bytes.len() - 1) + hex_byte_chars(bytes.last())
    }
}

/// The whole header text: a fixed-storage array declaration holding
/// the rendered byte list.
pub open spec fn header_chars(bytes: Seq<u8>) -> Seq<char> {
    "const uint8_t PROGMEM image_frames[] =\n{ "@ + body_chars(bytes) + " };"@
}

/// The concatenation of a sequence of frames' raw bytes, in order.
pub open spec fn flatten_frames(frames: Seq<Bytes>) -> Seq<u8>
    decreases frames.len(),
{
    if frames.len() == 0 {
        Seq::empty()
    } else {
        flatten_frames(frames.drop_last()) + frames.last()@
    }
}

/// The concatenation of the run-length streams of a sequence of
/// frames, in order.
pub open spec fn flatten_compressed(frames: Seq<Bytes>) -> Seq<u8>
    decreases frames.len(),
{
    if frames.len() == 0 {
        Seq::empty()
    } else {
        flatten_compressed(frames.drop_last()) + compressed_spec(frames.last()@)
    }
}

/// Appends the lower-case hexadecimal digit of a value below 16.
fn push_hex_digit(s: &mut String, d: u8)
    requires
        d < 16,
    ensures
        final(s)@ == old(s)@ + seq![hex_digit(d as int)],
{
    let digits = "0123456789abcdef";
    proof {
        reveal_strlit("0123456789abcdef");
    }
    let c = digits.substring_ascii(d as usize, d as usize + 1);
    s.append(c);
    proof {
        assert(c@ =~= seq![hex_digit(d as int)]);
    }
}

/// Appends one byte as a `0x`-prefixed, two-digit hexadecimal
/// literal.
fn push_hex_byte(s: &mut String, b: u8)
    ensures
        final(s)@ == old(s)@ + hex_byte_chars(b),
{
    s.append("0x");
    push_hex_digit(s, b / 16);
    push_hex_digit(s, b % 16);
    proof {
        reveal_strlit("0x");
        assert("0x"@ =~= seq!['0', 'x']);
        assert(final(s)@ =~= old(s)@ + hex_byte_chars(b));
    }
}

/// Renders a flat byte sequence as the header text: the array
/// declaration around the comma-separated hexadecimal byte literals,
/// 16 to a line.
pub fn render_header(bytes: &Vec<u8>) -> (r: String)
    ensures
        r@ == header_chars(bytes@),
{
    let mut s = String::new();
    s.append("const uint8_t PROGMEM image_frames[] =\n{ ");
    let ghost prefix = "const uint8_t PROGMEM image_frames[] =\n{ "@;
    let n = bytes.len();
    let mut i: usize = 0;
    proof {
        assert(bytes@.take(0) =~= Seq::<u8>::empty());
        assert(s@ =~= prefix + body_chars(bytes@.take(0)));
    }
    while i < n
        invariant
            n == bytes@.len(),
            i <= n,
            s@ == prefix + body_chars(bytes@.take(i as int)),
        decreases n - i,
    {
        if i > 0 {
            if i % 16 == 0 {
                s.append(",\n  ");
                proof {
                    reveal_strlit(",\n  ");
                    assert(",\n  "@ =~= sep_chars(i as int));
                }
            } else {
                s.append(", ");
                proof {
                    reveal_strlit(", ");
                    assert(", "@ =~= sep_chars(i as int));
                }
            }
        }
        push_hex_byte(&mut s, bytes[i]);
        proof {
            let t = bytes@.take(i + 1);
            assert(t.drop_last() =~= bytes@.take(i as int));
            assert(t.last() == bytes@[i as int]);
            assert(s@ =~= prefix + body_chars(t));
        }
        i = i + 1;
    }
    s.append(" };");
    proof {
        assert(bytes@.take(n as int) =~= bytes@);
        assert(s@ =~= header_chars(bytes@));
    }
    s
}

/// Concatenates the raw bytes of a list of frames, in order.
fn concat_frames(frames: &Vec<Bytes>) -> (r: Vec<u8>)
    ensures
        r@ == flatten_frames(frames@),
{
    let n = frames.len();
    let mut out: Vec<u8> = Vec::new();
    let mut i: usize = 0;
    proof {
        assert(frames@.take(0) =~= Seq::<Bytes>::empty());
        assert(out@ =~= flatten_frames(frames@.take(0)));
    }
    while i < n
        invariant
            n == frames@.len(),
            i <= n,
            out@ == flatten_frames(frames@.take(i as int)),
        decreases n - i,
    {
        let m = frames[i].0.len();
        let ghost out0 = out@;
        let mut j: usize = 0;
        while j < m
            invariant
                n == frames@.len(),
                i < n,
                m == frames@[i as int]@.len(),
                j <= m,
                out@ == out0 + frames@[i as int]@.take(j as int),
            decreases m - j,
        {
            let b = frames[i].0[j];
            out.push(b);
            proof {
                assert(out@ =~= out0 + frames@[i as int]@.take(j + 1));
            }
            j = j + 1;
        }
        proof {
            let t = frames@.take(i + 1);
            assert(t.drop_last() =~= frames@.take(i as int));
            assert(t.last() == frames@[i as int]);
            assert(frames@[i as int]@.take(m as int) =~= frames@[i as int]@);
            assert(out@ =~= flatten_frames(t));
        }
        i = i + 1;
    }
    proof {
        assert(frames@.take(n as int) =~= frames@);
    }
    out
}

/// Renders a list of frames as the header text over their
/// concatenated raw bytes.
pub fn generate_header(byte_sets: Vec<Bytes>) -> (r: String)
    ensures
        r@ == header_chars(flatten_frames(byte_sets@)),
{
    let flat = concat_frames(&byte_sets);
    render_header(&flat)
}

/// Which payload form a frame set is serialized in: the raw frames,
/// or one run-length stream per frame.
#[derive(Clone, Copy, Debug, PartialEq, Eq, Structural)]
pub enum OutputFormat {
    Raw,
    RunLength,
}

/// An ordered, append-only collection of frames, concatenated without
/// separators when serialized; each frame describes its own
/// dimensions.
pub struct FrameSet {
    pub frames: Vec<Bytes>,
}

impl FrameSet {
    /// An empty frame set.
    pub fn new() -> (r: FrameSet)
        ensures
            r.frames@ == Seq::<Bytes>::empty(),
    {
        FrameSet { frames: Vec::new() }
    }

    /// Appends one frame; append order is output order.
    pub fn append(&mut self, frame: Bytes)
        ensures
            final(self).frames@ == old(self).frames@.push(frame),
    {
        self.frames.push(frame);
    }

    /// Serializes the set as the header text: the frames' bytes
    /// concatenated in append order, either raw or each frame
    /// replaced by its run-length stream, rendered as the array
    /// declaration.
    pub fn serialize(self, format: OutputFormat) -> (r: String)
        requires
            format is RunLength ==> forall|i: int|
                0 <= i < self.frames@.len() ==> (#[trigger] self.frames@[i]).wf(),
        ensures
            format is Raw ==> r@ == header_chars(flatten_frames(self.frames@)),
            format is RunLength ==> r@ == header_chars(flatten_compressed(self.frames@)),
    {
        match format {
            OutputFormat::Raw => generate_header(self.frames),
            OutputFormat::RunLength => {
                let n = self.frames.len();
                let mut out: Vec<u8> = Vec::new();
                let mut i: usize = 0;
                proof {
                    assert(self.frames@.take(0) =~= Seq::<Bytes>::empty());
                    assert(out@ =~= flatten_compressed(self.frames@.take(0)));
                }
                while i < n
                    invariant
                        n == self.frames@.len(),
                        i <= n,
                        forall|k: int|
                            0 <= k < self.frames@.len() ==> (#[trigger] self.frames@[k]).wf(),
                        out@ == flatten_compressed(self.frames@.take(i as int)),
                    decreases n - i,
                {
                    let mut rs = compress(&self.frames[i]);
                    out.append(&mut rs.0);
                    proof {
                        let t = self.frames@.take(i + 1);
                        assert(t.drop_last() =~= self.frames@.take(i as int));
                        assert(t.last() == self.frames@[i as int]);
                        assert(out@ =~= flatten_compressed(t));
                    }
                    i = i + 1;
                }
                proof {
                    assert(self.frames@.take(n as int) =~= self.frames@);
                }
                render_header(&out)
            },
        }
    }
}

} // verus!
