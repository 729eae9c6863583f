//! Core of a decentralised chat: identities and signatures, sealed envelopes, the
//! mailbox entrance, key rotation, relay tickets, resource budgets and the internal clock.
use vstd::prelude::*;

pub mod adaptive;
pub mod arith;
pub mod base64;
pub mod bytes;
pub mod clock;
pub mod compression;
pub mod contacts;
pub mod crypto;
pub mod delivery;
pub mod entropy;
pub mod envelope;
pub mod ffi;
pub mod governor;
pub mod handshake;
pub mod identity;
pub mod lists;
pub mod mailbox;
pub mod maildrop;
pub mod network;
pub mod node;
pub mod nodekey;
pub mod queue;
pub mod relay;
pub mod retry;
pub mod settings;
pub mod signal_backend;
pub mod signal_store;
pub mod single;
pub mod text;
pub mod timeline;
pub mod vault;

verus! {

/// What can go wrong in the core. The text says more about it.
#[derive(Debug)]
pub enum CoreError {
    Entropy(String),
    Crypto(String),
    Cbor(String),
    Db(String),
    Io(String),
    Config(String),
    /// The address is bound to another long-term identity key. Callers show this apart from
    /// ordinary faults: the contact has to be verified again.
    IdentityChanged(String),
}

impl CoreError {
    /// What stands before and behind the text of an error of this kind.
    pub open spec fn frame_text(self) -> (Seq<char>, Seq<char>) {
        match self {
            CoreError::Entropy(_) => ("熵源错误: "@, ""@),
            CoreError::Crypto(_) => ("密码学错误: "@, ""@),
            CoreError::Cbor(_) => ("CBOR 编解码错误: "@, ""@),
            CoreError::Db(_) => ("数据库错误: "@, ""@),
            CoreError::Io(_) => ("IO 错误: "@, ""@),
            CoreError::Config(_) => ("配置错误: "@, ""@),
            CoreError::IdentityChanged(_) => (
                "对方身份已变更（"@,
                " 已绑定不同的长期身份钥），需重新带外验证"@,
            ),
        }
    }

    /// The text that the error carries.
    pub open spec fn text(self) -> Seq<char> {
        match self {
            CoreError::Entropy(s) => s@,
            CoreError::Crypto(s) => s@,
            CoreError::Cbor(s) => s@,
            CoreError::Db(s) => s@,
            CoreError::Io(s) => s@,
            CoreError::Config(s) => s@,
            CoreError::IdentityChanged(s) => s@,
        }
    }

    /// The message for a user.
    pub fn message(&self) -> (r: String)
        ensures
            r@ == self.frame_text().0 + self.text() + self.frame_text().1,
    {
        let (before, text, after) = match self {
            CoreError::Entropy(s) => ("熵源错误: ", s, ""),
            CoreError::Crypto(s) => ("密码学错误: ", s, ""),
            CoreError::Cbor(s) => ("CBOR 编解码错误: ", s, ""),
            CoreError::Db(s) => ("数据库错误: ", s, ""),
            CoreError::Io(s) => ("IO 错误: ", s, ""),
            CoreError::Config(s) => ("配置错误: ", s, ""),
            CoreError::IdentityChanged(s) => (
                "对方身份已变更（",
                s,
                " 已绑定不同的长期身份钥），需重新带外验证",
            ),
        };
        let mut out = before.to_owned();
        out.append(text.as_str());
        out.append(after);
        out
    }
}

} // verus!
