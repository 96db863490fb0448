//! The demo server's command line: `<port> <message words...>`.
use vstd::prelude::*;
use vstd::utf8::encode_utf8;
use crate::decimal::{parse_u16, parse_u16_spec};
use crate::http::push_bytes;

verus! {

/// ASCII space.
pub const ASCII_SPACE: u8 = 32;

/// Why the server's command line is refused.
#[derive(Debug, Clone, Copy, PartialEq, Eq, Structural)]
pub enum ServerArgError {
    /// Fewer than a port and one message word were given.
    Usage,
    /// The port is not a number in `0..=65535`.
    InvalidPort,
}

/// What the server runs with.
pub struct ServerConfig {
    pub port: u16,
    /// The message words joined by single spaces, as UTF-8.
    pub message: Vec<u8>,
}

/// The UTF-8 bytes of each argument.
pub open spec fn arg_bytes(args: Seq<String>) -> Seq<Seq<u8>> {
    args.map_values(|a: String| encode_utf8(a@))
}

/// The words joined with one space between each two, as `[&str]::join(" ")`.
pub open spec fn join_with_spaces(words: Seq<Seq<u8>>) -> Seq<u8>
    decreases words.len(),
{
    if words.len() == 0 {
        Seq::empty()
    } else if words.len() == 1 {
        words[0]
    } else {
        join_with_spaces(words.drop_last()) + seq![ASCII_SPACE] + words.last()
    }
}

/// The total number of bytes in the words.
pub open spec fn total_len(words: Seq<Seq<u8>>) -> nat
    decreases words.len(),
{
    if words.len() == 0 {
        0
    } else {
        total_len(words.drop_last()) + words.last().len()
    }
}

/// Each argument is taken as its UTF-8 bytes, in order.
pub proof fn lemma_arg_bytes(args: Seq<String>, i: int)
    requires
        0 <= i < args.len(),
    ensures
        arg_bytes(args).len() == args.len(),
        arg_bytes(args)[i] == encode_utf8(args[i]@),
{
}

/// One word joins to itself.
pub proof fn lemma_join_single(w: Seq<u8>)
    ensures
        join_with_spaces(seq![w]) == w,
{
}

/// Appending one more word appends a space and that word.
pub proof fn lemma_join_append(words: Seq<Seq<u8>>, w: Seq<u8>)
    requires
        words.len() >= 1,
    ensures
        join_with_spaces(words.push(w)) == join_with_spaces(words) + seq![32u8] + w,
{
    assert(words.push(w).drop_last() =~= words);
}

/// Joining `k >= 1` words gives all their bytes and `k - 1` spaces.
pub proof fn lemma_join_len(words: Seq<Seq<u8>>)
    requires
        words.len() >= 1,
    ensures
        join_with_spaces(words).len() == total_len(words) + words.len() - 1,
    decreases words.len(),
{
    if words.len() > 1 {
        lemma_join_len(words.drop_last());
    } else {
        assert(words.drop_last().len() == 0);
        assert(total_len(words.drop_last()) == 0);
        assert(words.last() == words[0]);
    }
}

/// Reads the server's command line (program name first): the port, then the
/// message, made of all remaining arguments joined by spaces.
pub fn server_config(args: &Vec<String>) -> (r: Result<ServerConfig, ServerArgError>)
    ensures
        args@.len() < 3 ==> r matches Err(ServerArgError::Usage),
        args@.len() >= 3 ==> match parse_u16_spec(arg_bytes(args@)[1]) {
            None => r matches Err(ServerArgError::InvalidPort),
            Some(port) => r matches Ok(config) && config.port == port && config.message@
                == join_with_spaces(arg_bytes(args@).skip(2)),
        },
{
    if args.len() < 3 {
        return Err(ServerArgError::Usage);
    }
    let port = match parse_u16(args[1].as_str().as_bytes()) {
        Some(p) => p,
        None => return Err(ServerArgError::InvalidPort),
    };
    let ghost words = arg_bytes(args@).skip(2);
    let mut message: Vec<u8> = Vec::new();
    let mut i: usize = 2;
    while i < args.len()
        invariant
            2 <= i <= args@.len(),
            words == arg_bytes(args@).skip(2),
            message@ == join_with_spaces(words.take(i - 2)),
        decreases args@.len() - i,
    {
        if i > 2 {
            message.push(ASCII_SPACE);
        }
        push_bytes(&mut message, args[i].as_str().as_bytes());
        assert(words.take(i + 1 - 2).drop_last() =~= words.take(i - 2));
        assert(words.take(i + 1 - 2).last() == encode_utf8(args@[i as int]@));
        proof {
            if i == 2 {
                assert(words.take(0) =~= Seq::<Seq<u8>>::empty());
            }
        }
        i = i + 1;
    }
    assert(words.take(i - 2) =~= words);
    Ok(ServerConfig { port, message })
}

} // verus!
