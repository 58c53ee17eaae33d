use vstd::prelude::*;
use vstd::utf8::*;

use crate::bytes_util::{
    is_code_char,
    law_code_is_short_ascii,
    CODE_LEN,
    decode_bytes_to_string,
    has_no_trailing_nul,
    law_padded_name_roundtrip,
    padded,
    trim_trailing_nul,
};

verus! {

/// Size in bytes of the padded frames that carry the transfer code and the file name.
pub const CODE_SIZE: usize = 256;

/// The frame that carries a transfer code or a file name: its UTF-8 bytes padded with
/// zeros to `CODE_SIZE` bytes.
pub open spec fn name_frame(name: Seq<char>) -> Seq<u8> {
    padded(encode_utf8(name), CODE_SIZE as nat)
}

/// The acknowledgement byte that the sender writes back after reading the code frame
/// of a peer: 1 when the decoded code equals the code generated here, 0 otherwise.
pub fn code_ack(code_buf: Vec<u8>, expected: &String) -> (ack: u8)
    requires
        valid_utf8(code_buf@),
    ensures
        ack == (if trim_trailing_nul(decode_utf8(code_buf@)) == expected@ {
            1u8
        } else {
            0u8
        }),
{
    let decoded_code = decode_bytes_to_string(code_buf);
    if decoded_code == *expected {
        1u8
    } else {
        0u8
    }
}

/// The sender acknowledges a peer's code frame with 1 exactly when the peer's code is the
/// code generated by the sender; with any other code the answer is 0. The frame is valid
/// UTF-8, so reading it does not fail.
pub proof fn law_handshake(peer_code: Seq<char>, expected: Seq<char>)
    requires
        has_no_trailing_nul(peer_code),
        encode_utf8(peer_code).len() <= CODE_SIZE,
    ensures
        valid_utf8(name_frame(peer_code)),
        (trim_trailing_nul(decode_utf8(name_frame(peer_code))) == expected) <==> (peer_code == expected),
{
    law_padded_name_roundtrip(peer_code, CODE_SIZE as nat);
}

/// A code as `generate_code` makes it, typed in by the receiver and sent in a code frame,
/// is acknowledged with 1 by the sender that generated it.
pub proof fn law_generated_code_accepted(code: Seq<char>)
    requires
        code.len() == CODE_LEN,
        forall|i: int| 0 <= i < code.len() ==> is_code_char(#[trigger] code[i]),
    ensures
        valid_utf8(name_frame(code)),
        trim_trailing_nul(decode_utf8(name_frame(code))) == code,
{
    law_code_is_short_ascii(code);
    law_handshake(code, code);
}

} // verus!
