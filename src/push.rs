//! A command buffer of method headers and their data dwords.
//!
//! A method header holds the kind of push in bits 31:29, the number of data
//! dwords that follow (or an immediate) in bits 28:16, the subchannel in bits
//! 15:13 and the method's dword address in bits 12:0.
use vstd::prelude::*;

verus! {

#[derive(Clone, Copy, Debug, PartialEq, Eq, Structural)]
pub enum Error {
    Overflow,
    CountExceeded,
    UnterminatedMethod,
}

impl Error {
    /// What went wrong, in words.
    pub fn message(&self) -> (r: &'static str)
        ensures
            r@ == match *self {
                Error::Overflow => "overflowed the current dword"@,
                Error::CountExceeded => "exceeded the maximum dword count"@,
                Error::UnterminatedMethod => "the current method is empty and cannot be issued"@,
            },
    {
        match *self {
            Error::Overflow => "overflowed the current dword",
            Error::CountExceeded => "exceeded the maximum dword count",
            Error::UnterminatedMethod => "the current method is empty and cannot be issued",
        }
    }
}

#[derive(Clone, Copy, Debug, PartialEq, Eq, Structural)]
pub enum PushType {
    /// Each dword increments the address by one
    NInc,
    /// The first dword increments the address by one
    OneInc,
    /// The address is not incremented
    ZeroInc,
    /// Push an immediate
    Immd(u32),
}

/// A method: its byte address and the dword it carries. For an element of
/// an array method, the address is that of the element.
#[derive(Clone, Copy, Debug, PartialEq, Eq, Structural)]
pub enum PushMethodType {
    Method(u16, u32),
    ArrayMthd(u16, u32),
}

impl PushMethodType {
    pub open spec fn spec_addr(&self) -> u16 {
        match *self {
            PushMethodType::Method(addr, _) => addr,
            PushMethodType::ArrayMthd(addr, _) => addr,
        }
    }

    pub open spec fn spec_bits(&self) -> u32 {
        match *self {
            PushMethodType::Method(_, bits) => bits,
            PushMethodType::ArrayMthd(_, bits) => bits,
        }
    }

    /// The method's byte address.
    pub fn addr(&self) -> (r: u16)
        ensures
            r == self.spec_addr(),
    {
        match *self {
            PushMethodType::Method(addr, _) => addr,
            PushMethodType::ArrayMthd(addr, _) => addr,
        }
    }

    /// The dword that the method carries.
    pub fn to_bits(&self) -> (r: u32)
        ensures
            r == self.spec_bits(),
    {
        match *self {
            PushMethodType::Method(_, bits) => bits,
            PushMethodType::ArrayMthd(_, bits) => bits,
        }
    }
}

/// The subchannels to issue methods against.
#[derive(Clone, Copy, Debug, PartialEq, Eq, Structural)]
pub enum Subchannel {
    Nv9097,
    NvA097,
    NvB097,
    NvB197,
    NvC097,
    NvC397,
    Nv90C0,
    NvA0C0,
    NvB0C0,
    NvC0C0,
    NvC3C0,
    NvC6C0,
    Nv9039,
    Nv902D,
    Nv90B5,
    NvC1B5,
}

/// The number of a subchannel: 0 for 3D, 1 for compute, 2 for memory to
/// memory, 3 for 2D, 4 for copy.
pub open spec fn subchannel_id(v: Subchannel) -> u32 {
    match v {
        Subchannel::Nv9097 | Subchannel::NvA097 | Subchannel::NvB097 | Subchannel::NvB197
        | Subchannel::NvC097 | Subchannel::NvC397 => 0,
        Subchannel::Nv90C0 | Subchannel::NvA0C0 | Subchannel::NvB0C0 | Subchannel::NvC0C0
        | Subchannel::NvC3C0 | Subchannel::NvC6C0 => 1,
        Subchannel::Nv9039 => 2,
        Subchannel::Nv902D => 3,
        Subchannel::Nv90B5 | Subchannel::NvC1B5 => 4,
    }
}

impl From<Subchannel> for u32 {
    fn from(v: Subchannel) -> (r: u32) {
        match v {
            Subchannel::Nv9097 | Subchannel::NvA097 | Subchannel::NvB097 | Subchannel::NvB197
            | Subchannel::NvC097 | Subchannel::NvC397 => 0,
            Subchannel::Nv90C0 | Subchannel::NvA0C0 | Subchannel::NvB0C0 | Subchannel::NvC0C0
            | Subchannel::NvC3C0 | Subchannel::NvC6C0 => 1,
            Subchannel::Nv9039 => 2,
            Subchannel::Nv902D => 3,
            Subchannel::Nv90B5 | Subchannel::NvC1B5 => 4,
        }
    }
}

impl vstd::std_specs::convert::FromSpecImpl<Subchannel> for u32 {
    open spec fn obeys_from_spec() -> bool {
        true
    }

    open spec fn from_spec(v: Subchannel) -> u32 {
        subchannel_id(v)
    }
}

/// Used to issue methods
#[derive(Clone, Copy, Debug, PartialEq, Eq, Structural)]
pub struct PushMethod {
    /// The subchannel to issue the method against
    pub subchannel: Subchannel,
    /// The method type
    pub method_type: PushMethodType,
    /// The type of push to use
    pub push_type: PushType,
}

/// The header of a method, with a count of zero.
pub open spec fn header_of(m: PushMethod) -> u32 {
    let addr = (m.method_type.spec_addr() as u32) >> 2u32;
    let subc = subchannel_id(m.subchannel) << 13u32;
    match m.push_type {
        PushType::NInc => 0x20000000u32 | subc | addr,
        PushType::OneInc => 0xa0000000u32 | subc | addr,
        PushType::ZeroInc => 0x60000000u32 | subc | addr,
        PushType::Immd(immd) => 0x80000000u32 | (immd << 16u32) | subc | addr,
    }
}

impl PushMethod {
    fn to_bits(self) -> (r: u32)
        ensures
            r == header_of(self),
    {
        let addr = self.method_type.addr();
        let addr = addr as u32;

        // The count starts at zero: update_size() fills it in place.
        let subc = u32::from(self.subchannel);
        match self.push_type {
            PushType::NInc => 0x20000000 | (subc << 13) | (addr >> 2),
            PushType::OneInc => 0xa0000000 | (subc << 13) | (addr >> 2),
            PushType::ZeroInc => 0x60000000 | (subc << 13) | (addr >> 2),
            PushType::Immd(immd) => 0x80000000 | (immd << 16) | (subc << 13) | (addr >> 2),
        }
    }
}

/// The count field (bits 28:16) of a header.
pub open spec fn hdr_count(h: u32) -> u32 {
    (h >> 16u32) & 0x1fff
}

/// A header with its count field set to `c`.
pub open spec fn with_count(h: u32, c: u32) -> u32 {
    (h & !0x1fff0000u32) | (c << 16u32)
}

/// Whether a header pushes an immediate.
pub open spec fn is_immd_hdr(h: u32) -> bool {
    h >> 29u32 == 4
}

proof fn lemma_count_sum(h: u32, c: u32)
    requires
        c <= 0x1fff,
    ensures
        h >> 16u32 <= 0xffff,
        hdr_count(h) <= 0x1fff,
        ((c + (h >> 16u32)) as u32) & 0x1fff == if c + hdr_count(h) > 0x1fff {
            (c + hdr_count(h) - 0x2000) as u32
        } else {
            (c + hdr_count(h)) as u32
        },
{
    assert(h >> 16u32 <= 0xffff) by (bit_vector);
    assert((h >> 16u32) & 0x1fff <= 0x1fff) by (bit_vector);
    assert((((c + (h >> 16u32)) as u32) & 0x1fff) == if ((h >> 16u32) & 0x1fff) + c > 0x1fff {
        (((h >> 16u32) & 0x1fff) + c - 0x2000) as u32
    } else {
        (((h >> 16u32) & 0x1fff) + c) as u32
    }) by (bit_vector)
        requires
            c <= 0x1fff,
    ;
}

pub struct Push {
    /// The internal memory. Has to be uploaded to a BO through flush().
    mem: Vec<u32>,
    /// Where the last header can be found in the internal memory. This is
    /// used to update the current size in place.
    last_size: usize,
}

impl Push {
    pub const MAX_COUNT: u32 = 0x1fff;

    /// The dwords pushed so far.
    pub closed spec fn mem(&self) -> Seq<u32> {
        self.mem@
    }

    /// The index of the current method's header.
    pub closed spec fn last(&self) -> int {
        self.last_size as int
    }

    /// The current header, where there is one.
    pub open spec fn wf(&self) -> bool {
        0 <= self.last() && (self.last() == 0 || self.last() < self.mem().len())
    }

    /// The header at the current position.
    pub open spec fn last_hdr(&self) -> u32 {
        self.mem()[self.last()]
    }

    /// Construct a empty push buffer. Does not allocate any storage.
    pub fn new() -> (r: Self)
        ensures
            r.wf(),
            r.mem() == Seq::<u32>::empty(),
            r.last() == 0,
    {
        Self { mem: Vec::new(), last_size: 0 }
    }

    /// Flushes the internal memory to `out`. Can be used to upload the push
    /// buffer.
    pub fn flush(&mut self, out: &mut [u32])
        requires
            old(out)@.len() == old(self).mem().len(),
        ensures
            final(out)@ == old(self).mem(),
            final(self).wf(),
            final(self).mem() == Seq::<u32>::empty(),
            final(self).last() == 0,
    {
        let mut i: usize = 0;
        while i < self.mem.len()
            invariant
                i <= self.mem@.len(),
                out@.len() == self.mem@.len(),
                forall|j: int| 0 <= j < i ==> out@[j] == self.mem@[j],
            decreases self.mem@.len() - i,
        {
            out[i] = self.mem[i];
            i += 1;
        }
        proof {
            assert(out@ =~= self.mem@);
        }
        self.mem.clear();
        self.last_size = 0;
    }

    /// Returns an error if the previous method was unterminated.
    fn verify(&self) -> (r: Result<(), Error>)
        requires
            self.wf(),
        ensures
            r == if self.last() != 0 && !is_immd_hdr(self.last_hdr()) && self.last_hdr()
                & 0x1fff0000 == 0 {
                Err(Error::UnterminatedMethod)
            } else {
                Ok(())
            },
    {
        if self.last_size == 0 {
            return Ok(());
        }

        let last_hdr = self.mem[self.last_size];

        // Check for immd
        if last_hdr >> 29 == 4 {
            return Ok(());
        }

        // make sure we don't add a new method if the last one wasn't used
        let last_count = last_hdr & 0x1fff0000;
        if last_count == 0 {
            return Err(Error::UnterminatedMethod);
        }

        Ok(())
    }

    /// Whether the current method is a method header with no data yet.
    pub open spec fn unterminated(&self) -> bool {
        self.last() != 0 && !is_immd_hdr(self.last_hdr()) && self.last_hdr() & 0x1fff0000 == 0
    }

    /// The byte address that the next data dword of the current method
    /// writes to.
    pub open spec fn pending_address(&self) -> int {
        let h = self.last_hdr();
        let d = self.mem().len() - self.last() - 1;
        let dist = if h & 0xe0000000 == 0x60000000 {
            0
        } else if h & 0xe0000000 == 0xa0000000 {
            if d > 1 {
                1
            } else {
                d
            }
        } else {
            d
        };
        (h & 0x1fff) * 4 + dist * 4
    }

    /// Begins a method.
    pub fn push_method(&mut self, method: PushMethod) -> (r: Result<(), Error>)
        requires
            old(self).wf(),
        ensures
            final(self).wf(),
            old(self).unterminated() ==> r == Err::<(), Error>(Error::UnterminatedMethod)
                && final(self).mem() == old(self).mem() && final(self).last() == old(self).last(),
            !old(self).unterminated() ==> r is Ok && final(self).last() == old(self).mem().len()
                && final(self).mem() == match method.push_type {
                PushType::Immd(immd) => if immd & !0x1fffu32 == 0 {
                    old(self).mem().push(header_of(method))
                } else {
                    old(self).mem().push(
                        with_count(header_of(PushMethod { push_type: PushType::NInc, ..method }), 1),
                    ).push(immd)
                },
                _ => old(self).mem().push(header_of(method)),
            },
    {
        match self.verify() {
            Ok(()) => {},
            Err(e) => return Err(e),
        }
        self.last_size = self.mem.len();
        match method.push_type {
            PushType::Immd(immd) => {
                if immd & !0x1fff == 0 {
                    self.mem.push(method.to_bits());
                } else {
                    let method = PushMethod { push_type: PushType::NInc, ..method };
                    let hdr = method.to_bits();
                    proof {
                        let subc = subchannel_id(method.subchannel);
                        let addr = method.method_type.spec_addr() as u32;
                        assert(subc <= 4);
                        assert(addr <= 0xffff);
                        assert(hdr_count(0x20000000u32 | (subc << 13u32) | (addr >> 2u32)) == 0)
                            by (bit_vector)
                            requires
                                subc <= 4,
                                addr <= 0xffff,
                        ;
                    }
                    self.mem.push(hdr);
                    let pushed = self.push_inline_data(immd);
                    assert(pushed is Ok);
                }
            },
            _ => {
                self.mem.push(method.to_bits());
            },
        }

        Ok(())
    }

    /// Returns the number of dwords in the push buffer
    pub fn dw_count(&self) -> (r: usize)
        ensures
            r == self.mem().len(),
    {
        self.mem.len()
    }

    /// Update the size of the current method to account for new data.
    pub fn update_size(&mut self, count: usize) -> (r: Result<(), Error>)
        requires
            old(self).wf(),
            old(self).mem().len() > 0,
            count <= u32::MAX,
        ensures
            final(self).wf(),
            final(self).last() == old(self).last(),
            ({
                let h = old(self).last_hdr();
                if count > 0x1fff {
                    r == Err::<(), Error>(Error::CountExceeded) && final(self).mem() == old(
                        self,
                    ).mem()
                } else if count + hdr_count(h) > 0x1fff {
                    r == Err::<(), Error>(Error::Overflow) && final(self).mem() == old(self).mem()
                } else {
                    r is Ok && final(self).mem() == old(self).mem().update(
                        old(self).last(),
                        with_count(h, (count + hdr_count(h)) as u32),
                    )
                }
            }),
    {
        let count = count as u32;
        if count > Self::MAX_COUNT {
            return Err(Error::CountExceeded);
        }

        let mut last_hdr_val = self.mem[self.last_size];
        proof {
            lemma_count_sum(last_hdr_val, count);
        }
        // size is encoded at 28:16
        let new_count = (count + (last_hdr_val >> 16)) & Self::MAX_COUNT;

        let overflow = new_count < count;
        if overflow {
            return Err(Error::Overflow);
        }

        last_hdr_val &= !0x1fff0000;
        last_hdr_val |= new_count << 16;
        self.mem[self.last_size] = last_hdr_val;
        Ok(())
    }

    /// Pushes a u32 into the push buffer without checking the current method.
    pub fn push_inline_data(&mut self, value: u32) -> (r: Result<(), Error>)
        requires
            old(self).wf(),
            old(self).mem().len() > 0,
        ensures
            final(self).wf(),
            final(self).last() == old(self).last(),
            ({
                let h = old(self).last_hdr();
                if hdr_count(h) + 1 > 0x1fff {
                    r == Err::<(), Error>(Error::Overflow) && final(self).mem() == old(self).mem()
                } else {
                    r is Ok && final(self).mem() == old(self).mem().update(
                        old(self).last(),
                        with_count(h, (hdr_count(h) + 1) as u32),
                    ).push(value)
                }
            }),
    {
        match self.update_size(1) {
            Ok(()) => {},
            Err(e) => return Err(e),
        }
        self.mem.push(value);
        Ok(())
    }

    /// Pushes an inline array into the push buffer
    pub fn push_inline_array(&mut self, data: &[u32]) -> (r: Result<(), Error>)
        requires
            old(self).wf(),
            old(self).mem().len() > 0,
        ensures
            final(self).wf(),
            final(self).last() == old(self).last(),
            ({
                let h = old(self).last_hdr();
                if data@.len() > 0x1fff {
                    r == Err::<(), Error>(Error::CountExceeded) && final(self).mem() == old(
                        self,
                    ).mem()
                } else if data@.len() + hdr_count(h) > 0x1fff {
                    r == Err::<(), Error>(Error::Overflow) && final(self).mem() == old(self).mem()
                } else {
                    r is Ok && final(self).mem() == old(self).mem().update(
                        old(self).last(),
                        with_count(h, (data@.len() + hdr_count(h)) as u32),
                    ) + data@
                }
            }),
    {
        if data.len() > 0x1fff {
            return Err(Error::CountExceeded);
        }
        match self.update_size(data.len()) {
            Ok(()) => {},
            Err(e) => return Err(e),
        }
        let ghost before = self.mem@;
        self.mem.extend_from_slice(data);
        proof {
            assert(self.mem@ =~= before + data@);
        }
        Ok(())
    }

    /// Pushes the value of `method` into the push buffer, as the next data
    /// dword of the current method, which must write to that address.
    pub fn push_value(&mut self, method: PushMethodType) -> (r: Result<(), Error>)
        requires
            old(self).wf(),
            old(self).mem().len() > 0,
            old(self).mem().len() - old(self).last() - 1 <= u32::MAX,
            old(self).last_hdr() != 0,
            old(self).last_hdr() & 0xe0000000 != 0x80000000,
            old(self).pending_address() == method.spec_addr() as int,
        ensures
            final(self).wf(),
            final(self).last() == old(self).last(),
            ({
                let h = old(self).last_hdr();
                if hdr_count(h) + 1 > 0x1fff {
                    r == Err::<(), Error>(Error::Overflow) && final(self).mem() == old(self).mem()
                } else {
                    r is Ok && final(self).mem() == old(self).mem().update(
                        old(self).last(),
                        with_count(h, (hdr_count(h) + 1) as u32),
                    ).push(method.spec_bits())
                }
            }),
    {
        let last_hdr_val = self.mem[self.last_size];
        let is_0inc = (last_hdr_val & 0xe0000000) == 0x60000000;
        let is_1inc = (last_hdr_val & 0xe0000000) == 0xa0000000;
        let is_immd = (last_hdr_val & 0xe0000000) == 0x80000000;
        proof {
            assert((last_hdr_val & 0x1fff) << 2u32 == (last_hdr_val & 0x1fff) * 4) by (bit_vector);
        }
        let last_method = (last_hdr_val & 0x1fff) << 2;

        let mut distance = (self.mem.len() - self.last_size - 1) as u32;
        if is_0inc {
            distance = 0;
        } else if is_1inc {
            distance = if distance > 1 {
                1
            } else {
                distance
            };
        }

        let current_address = last_method + distance * 4;

        // the header is a method header, not an immediate
        assert(last_hdr_val != 0);
        assert(!is_immd);

        let val = match method {
            PushMethodType::Method(addr, bits) => {
                assert(current_address == addr as u32);
                bits
            },
            PushMethodType::ArrayMthd(addr, bits) => {
                assert(current_address == addr as u32);
                bits
            },
        };
        self.push_inline_data(val)
    }

    /// Pushes raw data into the push buffer
    pub fn push_raw(&mut self, data: &[u32])
        requires
            old(self).wf(),
        ensures
            final(self).wf(),
            final(self).mem() == old(self).mem() + data@,
            final(self).last() == 0,
    {
        let ghost before = self.mem@;
        self.mem.extend_from_slice(data);
        proof {
            assert(self.mem@ =~= before + data@);
        }
        self.last_size = 0;
    }
}

} // verus!
