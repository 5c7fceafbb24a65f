//! Host-callable account operations: generate a private key and derive the
//! address that belongs to one.  The cryptography itself is delegated to an
//! external library and specified only by its input/output behaviour; what is
//! verified here is the handling of the results and the hand-over of the
//! produced text to the host through the packed-handle encoding.

use core::str::FromStr;
use vstd::prelude::*;

use crate::memory::{forget_buf_ptr_len_checked, publishes, GuestMemory};

verus! {

/// The address text derived from the private-key text held in `key`, or
/// nothing when `key` is not the text of a valid private key.  The derivation
/// is a pure function of the bytes: parsing, curve arithmetic and rendering
/// depend on nothing else.
pub uninterp spec fn address_for(key: Seq<u8>) -> Option<Seq<u8>>;

/// Relies on rand's `make_rng` (an OS-seeded `StdRng`) and snarkvm_console's
/// `PrivateKey::new` with its `Display` impl: samples a fresh private key and
/// renders it as text.  The key is random, so nothing is promised of the
/// bytes; `make_rng` aborts only if the operating system's entropy source
/// fails.
#[verifier::external_body]
fn sample_key_text() -> (r: Option<Vec<u8>>) {
    let mut rng: rand::rngs::StdRng = rand::make_rng();
    let outcome = snarkvm_console::account::PrivateKey::<
        snarkvm_console::network::MainnetV0,
    >::new(&mut rng);
    match outcome {
        Ok(pk) => Some(pk.to_string().into_bytes()),
        Err(_) => None,
    }
}

/// Relies on `core::str::from_utf8` and snarkvm_console's
/// `PrivateKey::from_str`, `Address::try_from` and the address `Display`
/// impl: the derived address text is a function of the key bytes alone, named
/// `address_for` here, and derivation fails on exactly the inputs where
/// `address_for` is nothing.
#[verifier::external_body]
fn derive_address(key: &Vec<u8>) -> (r: Option<Vec<u8>>)
    ensures
        (r matches Some(a) ==> address_for(key@) == Some(a@)),
        (r is Some <==> address_for(key@) is Some),
{
    let text = match core::str::from_utf8(key.as_slice()) {
        Ok(t) => t,
        Err(_) => return None,
    };
    let pk = match snarkvm_console::account::PrivateKey::<
        snarkvm_console::network::MainnetV0,
    >::from_str(text) {
        Ok(pk) => pk,
        Err(_) => return None,
    };
    match snarkvm_console::account::Address::try_from(pk) {
        Ok(addr) => Some(addr.to_string().into_bytes()),
        Err(_) => None,
    }
}

/// Generate a fresh account private key and hand its textual form to the host
/// as a packed `(length, address)` handle.  When key generation fails, or the
/// text cannot fit the packed encoding, the zero sentinel comes back and the
/// guest memory is left untouched: failure never allocates a region.
pub fn new_private_key(mem: &mut GuestMemory) -> (r: u64)
    requires
        old(mem).wf(),
    ensures
        final(mem).wf(),
        r == 0 ==> *final(mem) == *old(mem),
        r != 0 ==> (exists|b: Seq<u8>| publishes(*old(mem), *final(mem), r, b)),
{
    match sample_key_text() {
        Some(bytes) => {
            let ghost b = bytes@;
            let r = forget_buf_ptr_len_checked(mem, bytes);
            proof {
                if r != 0 {
                    assert(publishes(*old(mem), *mem, r, b));
                }
            }
            r
        },
        None => 0,
    }
}

/// Derive the account address for the private-key text held at `ptr` (`len`
/// bytes of guest memory) and hand the address text to the host as a packed
/// `(length, address)` handle.  Malformed input — bytes that are not text, or
/// text that is not a valid private key — yields the zero sentinel and leaves
/// the guest memory untouched: failure never allocates a region.  So does an
/// address that cannot fit the packed encoding.
pub fn get_address(mem: &mut GuestMemory, ptr: usize, len: usize) -> (r: u64)
    requires
        old(mem).wf(),
        ptr + len <= old(mem).space().len(),
    ensures
        final(mem).wf(),
        ({
            let key = old(mem).space().subrange(ptr as int, (ptr + len) as int);
            match address_for(key) {
                Option::None => r == 0 && *final(mem) == *old(mem),
                Option::Some(a) => {
                    &&& (old(mem).space().len() + a.len() + 8 < 0x1_0000_0000 ==> r != 0
                        && publishes(*old(mem), *final(mem), r, a))
                    &&& (old(mem).space().len() + a.len() + 8 >= 0x1_0000_0000 ==> r == 0
                        && *final(mem) == *old(mem))
                },
            }
        }),
{
    let key = mem.read_bytes(ptr, len);
    match derive_address(&key) {
        Some(addr) => forget_buf_ptr_len_checked(mem, addr),
        None => 0,
    }
}

} // verus!
