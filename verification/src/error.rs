//! What can go wrong while a graph is loaded or a view is worked on.

use vstd::prelude::*;
use vstd::string::StringExecFns;

verus! {

/// Why a node statement is not a node declaration of the expected shape.
#[derive(Debug, Clone, Copy, PartialEq, Eq, Structural)]
pub enum NodeFault {
    /// The node's name is not a quoted string.
    Id,
    /// The node has fewer than two attributes.
    AttributeCount,
    /// The key of the second attribute is not a plain word.
    AttributeKey,
    /// The value of the second attribute is not markup.
    AttributeValue,
}

/// Why an edge statement is not an edge declaration of the expected shape.
#[derive(Debug, Clone, Copy, PartialEq, Eq, Structural)]
pub enum EdgeFault {
    /// An endpoint is a subgraph.
    VertexType,
    /// The name of an endpoint is not a plain word.
    VertexId,
    /// An endpoint has no port.
    MissingPort,
    /// The port of an endpoint has no name.
    MissingPortId,
    /// The name of a port is not a quoted string.
    PortId,
    /// The edge is a chain, not a pair.
    EdgeType,
}

/// An error of the library.
#[derive(Debug, PartialEq, Eq)]
pub enum Error {
    /// An operation on the view was asked for before a graph was loaded.
    StateNotInitialized,
    /// A rename came without the new name.
    MissingName,
    /// A shown node has neither a resolved name nor an override.
    MissingNodeName,
    /// The source of the graph could not be read.
    SourceUnreadable,
    /// The source is not a graph description; the parser's message is kept.
    SourceSyntaxError(String),
    /// A node statement has not the expected shape.
    InvalidNodeDeclaration(NodeFault),
    /// An edge statement has not the expected shape.
    InvalidEdgeDeclaration(EdgeFault),
    /// A statement that is neither a node, an edge, a subgraph nor a set of
    /// graph attributes.
    UnsupportedStatement,
    /// The markup of a label is not one tree.
    MalformedMarkup,
}

/// The text of an error.
pub open spec fn message_of(e: Error) -> Seq<char> {
    match e {
        Error::StateNotInitialized => "state not found"@,
        Error::MissingName => "node name is required"@,
        Error::MissingNodeName => "node name not found"@,
        Error::SourceUnreadable => "Failed to read dot file"@,
        Error::SourceSyntaxError(detail) => "Failed to parse dot file: "@ + detail@,
        Error::InvalidNodeDeclaration(fault) => match fault {
            NodeFault::Id => "check node id"@,
            NodeFault::AttributeCount => "check node attributes"@,
            NodeFault::AttributeKey => "check external attribute id"@,
            NodeFault::AttributeValue => "check internal attribute id"@,
        },
        Error::InvalidEdgeDeclaration(fault) => match fault {
            EdgeFault::VertexType => "check vertex type"@,
            EdgeFault::VertexId => "check vertex id"@,
            EdgeFault::MissingPort => "check vertex port1"@,
            EdgeFault::MissingPortId => "check vertex port2"@,
            EdgeFault::PortId => "check vertex port id"@,
            EdgeFault::EdgeType => "check edge type"@,
        },
        Error::UnsupportedStatement => "check"@,
        Error::MalformedMarkup => "check html"@,
    }
}

impl Error {
    /// The text of the error, for whoever reports it.
    pub fn message(&self) -> (text: String)
        ensures
            text@ == message_of(*self),
    {
        match self {
            Error::StateNotInitialized => "state not found".to_owned(),
            Error::MissingName => "node name is required".to_owned(),
            Error::MissingNodeName => "node name not found".to_owned(),
            Error::SourceUnreadable => "Failed to read dot file".to_owned(),
            Error::SourceSyntaxError(detail) => {
                let mut text = "Failed to parse dot file: ".to_owned();
                text.append(detail.as_str());
                text
            },
            Error::InvalidNodeDeclaration(fault) => match fault {
                NodeFault::Id => "check node id".to_owned(),
                NodeFault::AttributeCount => "check node attributes".to_owned(),
                NodeFault::AttributeKey => "check external attribute id".to_owned(),
                NodeFault::AttributeValue => "check internal attribute id".to_owned(),
            },
            Error::InvalidEdgeDeclaration(fault) => match fault {
                EdgeFault::VertexType => "check vertex type".to_owned(),
                EdgeFault::VertexId => "check vertex id".to_owned(),
                EdgeFault::MissingPort => "check vertex port1".to_owned(),
                EdgeFault::MissingPortId => "check vertex port2".to_owned(),
                EdgeFault::PortId => "check vertex port id".to_owned(),
                EdgeFault::EdgeType => "check edge type".to_owned(),
            },
            Error::UnsupportedStatement => "check".to_owned(),
            Error::MalformedMarkup => "check html".to_owned(),
        }
    }
}

} // verus!
