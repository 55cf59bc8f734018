//! Messages on the daemon's socket: the length of a message, then the message.

use vstd::prelude::*;

verus! {

/// The four bytes of a number, the least significant first.
pub open spec fn length_bytes(n: nat) -> Seq<u8> {
    seq![
        (n % 256) as u8,
        (n / 256 % 256) as u8,
        (n / 65_536 % 256) as u8,
        (n / 16_777_216 % 256) as u8,
    ]
}

/// The number that four bytes are, the least significant first.
pub open spec fn length_in(head: Seq<u8>) -> nat {
    head[0] as nat + 256 * head[1] as nat + 65_536 * head[2] as nat + 16_777_216 * head[3] as nat
}

/// A message with its length in front.
pub fn frame(body: &[u8]) -> (r: Vec<u8>)
    requires
        body@.len() <= u32::MAX,
    ensures
        r@ == length_bytes(body@.len()) + body@,
{
    let n: u64 = body.len() as u64;
    let mut r: Vec<u8> = vec![
        (n % 256) as u8,
        (n / 256 % 256) as u8,
        (n / 65_536 % 256) as u8,
        (n / 16_777_216 % 256) as u8,
    ];
    assert(r@ =~= length_bytes(body@.len()));
    let mut i: usize = 0;
    assert(r@ =~= length_bytes(body@.len()) + body@.take(0));
    while i < body.len()
        invariant
            i <= body@.len(),
            r@ == length_bytes(body@.len()) + body@.take(i as int),
        decreases body@.len() - i,
    {
        r.push(body[i]);
        assert(r@ =~= length_bytes(body@.len()) + body@.take(i + 1));
        i = i + 1;
    }
    assert(body@.take(body@.len() as int) =~= body@);
    r
}

/// The length of the message behind the four bytes `head`.
pub fn frame_length(head: &[u8]) -> (n: u32)
    requires
        head@.len() == 4,
    ensures
        n == length_in(head@),
{
    head[0] as u32 + 256 * head[1] as u32 + 65_536 * head[2] as u32 + 16_777_216 * head[3] as u32
}

/// A message with its length in front is read back: the first four bytes tell how
/// much follows, and that is the message.
pub proof fn frames_survive(body: Seq<u8>)
    requires
        body.len() <= u32::MAX,
    ensures
        ({
            let sent = length_bytes(body.len()) + body;
            length_in(sent.take(4)) == body.len() && sent.skip(4) == body
        }),
{
    let sent = length_bytes(body.len()) + body;
    assert(sent.take(4) =~= length_bytes(body.len()));
    assert(sent.skip(4) =~= body);
}

} // verus!
