//! Typed representations of KRPC messages: the envelope, the four query
//! kinds, their response shapes, and protocol errors.

use vstd::prelude::*;

use crate::dht::NodeId;
use crate::dht::ID_BYTES;

verus! {

/// A wire message: a transaction id (an opaque correlation token, never
/// interpreted numerically) and one of the three message kinds.
#[derive(Debug)]
pub struct Message {
    pub t: Vec<u8>,
    pub mtype: Type,
}

/// The three kinds a message can take. A response may carry the sender's view
/// of our external address in the envelope's `ip` field.
#[derive(Debug)]
pub enum Type {
    Query { a: Arguments },
    Response { ip: Option<Vec<u8>>, r: Returns },
    Error { e: Errors },
}

/// Query arguments, one variant per method.
#[derive(Debug)]
pub enum Arguments {
    AnnouncePeer { id: NodeId, implied_port: u64, info_hash: NodeId, port: u64, token: Vec<u8> },
    FindNode { id: NodeId, target: NodeId },
    GetPeers { id: NodeId, info_hash: NodeId },
    Ping { id: NodeId },
}

/// Response values, one variant per method. A response carrying only an `id`
/// reads as a `ping` response: the wire cannot distinguish an
/// `announce_peer` response from it, so decoding never yields `AnnouncePeer`.
#[derive(Debug)]
pub enum Returns {
    GetPeers { id: NodeId, token: Vec<u8>, values_nodes: ValuesNodes },
    FindNode { id: NodeId, nodes: Vec<u8> },
    Ping { id: NodeId },
    AnnouncePeer { id: NodeId },
}

/// A `get_peers` response carries either compact peer addresses or compact
/// node contacts; the two are told apart structurally by key.
#[derive(Debug)]
pub enum ValuesNodes {
    Values { values: Vec<Slice> },
    Nodes { nodes: Vec<u8> },
}

/// One byte string inside a `values` list: a 6-byte compact peer address.
#[derive(Debug)]
pub struct Slice(pub Vec<u8>);

/// A protocol error: a numeric code paired with a human-readable message.
#[derive(Debug)]
pub struct Errors(pub ErrorCode, pub Vec<u8>);

/// The error codes the protocol defines.
#[derive(PartialEq, Eq, Structural, Clone, Copy, Debug)]
pub enum ErrorCode {
    GenericError,
    ServerError,
    ProtocolError,
    MethodUnknown,
}

impl ErrorCode {
    /// The numeric value this code takes on the wire.
    pub open spec fn spec_code(self) -> u64 {
        match self {
            ErrorCode::GenericError => 201,
            ErrorCode::ServerError => 202,
            ErrorCode::ProtocolError => 203,
            ErrorCode::MethodUnknown => 204,
        }
    }

    /// Returns the numeric value this code takes on the wire.
    pub fn code(&self) -> (r: u64)
        ensures
            r == self.spec_code(),
    {
        match self {
            ErrorCode::GenericError => 201,
            ErrorCode::ServerError => 202,
            ErrorCode::ProtocolError => 203,
            ErrorCode::MethodUnknown => 204,
        }
    }

    /// The code a numeric wire value stands for, where one does.
    pub open spec fn spec_of_code(c: u64) -> Option<ErrorCode> {
        if c == 201 {
            Option::Some(ErrorCode::GenericError)
        } else if c == 202 {
            Option::Some(ErrorCode::ServerError)
        } else if c == 203 {
            Option::Some(ErrorCode::ProtocolError)
        } else if c == 204 {
            Option::Some(ErrorCode::MethodUnknown)
        } else {
            Option::None
        }
    }

    /// Maps a numeric wire value back to its code, if and only if it is one
    /// of the four defined values.
    pub fn of_code(c: u64) -> (r: Option<ErrorCode>)
        ensures
            r == ErrorCode::spec_of_code(c),
    {
        if c == 201 {
            Option::Some(ErrorCode::GenericError)
        } else if c == 202 {
            Option::Some(ErrorCode::ServerError)
        } else if c == 203 {
            Option::Some(ErrorCode::ProtocolError)
        } else if c == 204 {
            Option::Some(ErrorCode::MethodUnknown)
        } else {
            Option::None
        }
    }
}

/// The mathematical value of a message.
pub struct MsgV {
    pub t: Seq<u8>,
    pub mtype: TypeV,
}

/// The mathematical value of a message kind.
pub enum TypeV {
    Query { a: ArgsV },
    Response { ip: Option<Seq<u8>>, r: RetV },
    Error { code: ErrorCode, msg: Seq<u8> },
}

/// The mathematical value of query arguments.
pub enum ArgsV {
    AnnouncePeer { id: Seq<u8>, implied_port: u64, info_hash: Seq<u8>, port: u64, token: Seq<u8> },
    FindNode { id: Seq<u8>, target: Seq<u8> },
    GetPeers { id: Seq<u8>, info_hash: Seq<u8> },
    Ping { id: Seq<u8> },
}

/// The mathematical value of response values.
pub enum RetV {
    GetPeers { id: Seq<u8>, token: Seq<u8>, values_nodes: VnV },
    FindNode { id: Seq<u8>, nodes: Seq<u8> },
    Ping { id: Seq<u8> },
    AnnouncePeer { id: Seq<u8> },
}

/// The mathematical value of a `values`-or-`nodes` alternative.
pub enum VnV {
    Values { values: Seq<Seq<u8>> },
    Nodes { nodes: Seq<u8> },
}

impl View for Slice {
    type V = Seq<u8>;

    open spec fn view(&self) -> Seq<u8> {
        self.0@
    }
}

impl View for ValuesNodes {
    type V = VnV;

    open spec fn view(&self) -> VnV {
        match self {
            ValuesNodes::Values { values } => VnV::Values {
                values: values@.map_values(|s: Slice| s@),
            },
            ValuesNodes::Nodes { nodes } => VnV::Nodes { nodes: nodes@ },
        }
    }
}

impl View for Returns {
    type V = RetV;

    open spec fn view(&self) -> RetV {
        match self {
            Returns::GetPeers { id, token, values_nodes } => RetV::GetPeers {
                id: id@,
                token: token@,
                values_nodes: values_nodes@,
            },
            Returns::FindNode { id, nodes } => RetV::FindNode { id: id@, nodes: nodes@ },
            Returns::Ping { id } => RetV::Ping { id: id@ },
            Returns::AnnouncePeer { id } => RetV::AnnouncePeer { id: id@ },
        }
    }
}

impl View for Arguments {
    type V = ArgsV;

    open spec fn view(&self) -> ArgsV {
        match self {
            Arguments::AnnouncePeer { id, implied_port, info_hash, port, token } => {
                ArgsV::AnnouncePeer {
                    id: id@,
                    implied_port: *implied_port,
                    info_hash: info_hash@,
                    port: *port,
                    token: token@,
                }
            },
            Arguments::FindNode { id, target } => ArgsV::FindNode { id: id@, target: target@ },
            Arguments::GetPeers { id, info_hash } => ArgsV::GetPeers {
                id: id@,
                info_hash: info_hash@,
            },
            Arguments::Ping { id } => ArgsV::Ping { id: id@ },
        }
    }
}

impl View for Type {
    type V = TypeV;

    open spec fn view(&self) -> TypeV {
        match self {
            Type::Query { a } => TypeV::Query { a: a@ },
            Type::Response { ip, r } => TypeV::Response {
                ip: match ip {
                    Option::Some(v) => Option::Some(v@),
                    Option::None => Option::None,
                },
                r: r@,
            },
            Type::Error { e } => TypeV::Error { code: e.0, msg: e.1@ },
        }
    }
}

impl View for Message {
    type V = MsgV;

    open spec fn view(&self) -> MsgV {
        MsgV { t: self.t@, mtype: self.mtype@ }
    }
}

/// A byte string short enough that its length has a wire numeral.
pub open spec fn len_ok(s: Seq<u8>) -> bool {
    s.len() <= u64::MAX
}

impl ArgsV {
    /// Identifier-shaped fields are full width; variable fields have a length.
    pub open spec fn wf(self) -> bool {
        match self {
            ArgsV::AnnouncePeer { id, implied_port, info_hash, port, token } => {
                id.len() == ID_BYTES && info_hash.len() == ID_BYTES && len_ok(token)
            },
            ArgsV::FindNode { id, target } => id.len() == ID_BYTES && target.len() == ID_BYTES,
            ArgsV::GetPeers { id, info_hash } => id.len() == ID_BYTES && info_hash.len()
                == ID_BYTES,
            ArgsV::Ping { id } => id.len() == ID_BYTES,
        }
    }
}

impl RetV {
    /// Identifier fields are full width, variable fields have a length, and
    /// the shape is one the wire can express: an `announce_peer` response is
    /// indistinguishable from a `ping` response, so only the latter is
    /// well-formed.
    pub open spec fn wf(self) -> bool {
        match self {
            RetV::GetPeers { id, token, values_nodes } => id.len() == ID_BYTES && len_ok(token)
                && match values_nodes {
                VnV::Values { values } => forall|i: int|
                    0 <= i < values.len() ==> len_ok(#[trigger] values[i]),
                VnV::Nodes { nodes } => len_ok(nodes),
            },
            RetV::FindNode { id, nodes } => id.len() == ID_BYTES && len_ok(nodes),
            RetV::Ping { id } => id.len() == ID_BYTES,
            RetV::AnnouncePeer { id } => false,
        }
    }
}

impl MsgV {
    /// What the codec can write and read back: every field wire-expressible.
    pub open spec fn wf(self) -> bool {
        len_ok(self.t) && match self.mtype {
            TypeV::Query { a } => a.wf(),
            TypeV::Response { ip, r } => r.wf() && match ip {
                Option::Some(v) => len_ok(v),
                Option::None => true,
            },
            TypeV::Error { code, msg } => len_ok(msg),
        }
    }
}

} // verus!
