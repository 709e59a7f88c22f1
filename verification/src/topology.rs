//! The words of the communication topology a publication carries beside
//! its records: the kinds of thing that communicate, where a fact came from,
//! and what passes between them.
//!
//! Each value is one word a publication writes and one name a person reads
//! it by. A word a reader does not know reads as the kind's fallback — a
//! computer, both origins, a send-receive exchange — so an unfamiliar
//! publication still draws.

use vstd::prelude::*;
use vstd::string::*;
use crate::text::same_text;

verus! {

/// The kind of thing shown in the topology.
#[derive(Clone, Copy, Debug, PartialEq, Eq, Structural)]
pub enum NodeKind {
    Computer,
    Server,
    VirtualMachine,
    Gateway,
    Appliance,
    Service,
    Process,
    Interface,
    Port,
    Protocol,
    Location,
    /// An Xmip cluster: the root its nodes hang under.
    Cluster,
    /// One Xmip node of a cluster.
    Node,
    /// A stage of the message path on a node.
    Stage,
    /// A receiving or sending endpoint of a stage, one per transport.
    Endpoint,
}

/// The word a publication writes for a node kind.
pub open spec fn node_kind_word(value: NodeKind) -> Seq<char> {
    match value {
        NodeKind::Computer => "computer"@,
        NodeKind::Server => "server"@,
        NodeKind::VirtualMachine => "virtual-machine"@,
        NodeKind::Gateway => "gateway"@,
        NodeKind::Appliance => "appliance"@,
        NodeKind::Service => "service"@,
        NodeKind::Process => "process"@,
        NodeKind::Interface => "interface"@,
        NodeKind::Port => "port"@,
        NodeKind::Protocol => "protocol"@,
        NodeKind::Location => "location"@,
        NodeKind::Cluster => "cluster"@,
        NodeKind::Node => "node"@,
        NodeKind::Stage => "stage"@,
        NodeKind::Endpoint => "endpoint"@,
    }
}

/// What a person reads a node kind by.
pub open spec fn node_kind_name(value: NodeKind) -> Seq<char> {
    match value {
        NodeKind::Computer => "computer"@,
        NodeKind::Server => "server"@,
        NodeKind::VirtualMachine => "virtual machine"@,
        NodeKind::Gateway => "gateway"@,
        NodeKind::Appliance => "appliance"@,
        NodeKind::Service => "service"@,
        NodeKind::Process => "process"@,
        NodeKind::Interface => "interface"@,
        NodeKind::Port => "port"@,
        NodeKind::Protocol => "protocol"@,
        NodeKind::Location => "location"@,
        NodeKind::Cluster => "cluster"@,
        NodeKind::Node => "node"@,
        NodeKind::Stage => "stage"@,
        NodeKind::Endpoint => "endpoint"@,
    }
}

/// The node kind a word names, exactly, or `None`.
pub open spec fn node_kind_named(word: Seq<char>) -> Option<NodeKind> {
    if word == node_kind_word(NodeKind::Computer) {
        Some(NodeKind::Computer)
    } else if word == node_kind_word(NodeKind::Server) {
        Some(NodeKind::Server)
    } else if word == node_kind_word(NodeKind::VirtualMachine) {
        Some(NodeKind::VirtualMachine)
    } else if word == node_kind_word(NodeKind::Gateway) {
        Some(NodeKind::Gateway)
    } else if word == node_kind_word(NodeKind::Appliance) {
        Some(NodeKind::Appliance)
    } else if word == node_kind_word(NodeKind::Service) {
        Some(NodeKind::Service)
    } else if word == node_kind_word(NodeKind::Process) {
        Some(NodeKind::Process)
    } else if word == node_kind_word(NodeKind::Interface) {
        Some(NodeKind::Interface)
    } else if word == node_kind_word(NodeKind::Port) {
        Some(NodeKind::Port)
    } else if word == node_kind_word(NodeKind::Protocol) {
        Some(NodeKind::Protocol)
    } else if word == node_kind_word(NodeKind::Location) {
        Some(NodeKind::Location)
    } else if word == node_kind_word(NodeKind::Cluster) {
        Some(NodeKind::Cluster)
    } else if word == node_kind_word(NodeKind::Node) {
        Some(NodeKind::Node)
    } else if word == node_kind_word(NodeKind::Stage) {
        Some(NodeKind::Stage)
    } else if word == node_kind_word(NodeKind::Endpoint) {
        Some(NodeKind::Endpoint)
    } else {
        None
    }
}

impl NodeKind {
    /// Every variant, in the order the header numbers them.
    pub const ALL: [NodeKind; 15] = [
        NodeKind::Computer,
        NodeKind::Server,
        NodeKind::VirtualMachine,
        NodeKind::Gateway,
        NodeKind::Appliance,
        NodeKind::Service,
        NodeKind::Process,
        NodeKind::Interface,
        NodeKind::Port,
        NodeKind::Protocol,
        NodeKind::Location,
        NodeKind::Cluster,
        NodeKind::Node,
        NodeKind::Stage,
        NodeKind::Endpoint,
    ];

    /// The word a publication writes.
    pub fn word(self) -> (r: &'static str)
        ensures
            r@ == node_kind_word(self),
    {
        match self {
            NodeKind::Computer => "computer",
            NodeKind::Server => "server",
            NodeKind::VirtualMachine => "virtual-machine",
            NodeKind::Gateway => "gateway",
            NodeKind::Appliance => "appliance",
            NodeKind::Service => "service",
            NodeKind::Process => "process",
            NodeKind::Interface => "interface",
            NodeKind::Port => "port",
            NodeKind::Protocol => "protocol",
            NodeKind::Location => "location",
            NodeKind::Cluster => "cluster",
            NodeKind::Node => "node",
            NodeKind::Stage => "stage",
            NodeKind::Endpoint => "endpoint",
        }
    }

    /// What a surface calls it where a person reads it: under a node on
    /// the canvas, in the legend, in the inspector's rows.
    pub fn name(self) -> (r: &'static str)
        ensures
            r@ == node_kind_name(self),
    {
        match self {
            NodeKind::Computer => "computer",
            NodeKind::Server => "server",
            NodeKind::VirtualMachine => "virtual machine",
            NodeKind::Gateway => "gateway",
            NodeKind::Appliance => "appliance",
            NodeKind::Service => "service",
            NodeKind::Process => "process",
            NodeKind::Interface => "interface",
            NodeKind::Port => "port",
            NodeKind::Protocol => "protocol",
            NodeKind::Location => "location",
            NodeKind::Cluster => "cluster",
            NodeKind::Node => "node",
            NodeKind::Stage => "stage",
            NodeKind::Endpoint => "endpoint",
        }
    }

    /// The variant a word names, exactly, or `None`.
    pub fn named(word: &str) -> (r: Option<NodeKind>)
        ensures
            r == node_kind_named(word@),
    {
        if same_text(word, "computer") {
            Some(NodeKind::Computer)
        } else if same_text(word, "server") {
            Some(NodeKind::Server)
        } else if same_text(word, "virtual-machine") {
            Some(NodeKind::VirtualMachine)
        } else if same_text(word, "gateway") {
            Some(NodeKind::Gateway)
        } else if same_text(word, "appliance") {
            Some(NodeKind::Appliance)
        } else if same_text(word, "service") {
            Some(NodeKind::Service)
        } else if same_text(word, "process") {
            Some(NodeKind::Process)
        } else if same_text(word, "interface") {
            Some(NodeKind::Interface)
        } else if same_text(word, "port") {
            Some(NodeKind::Port)
        } else if same_text(word, "protocol") {
            Some(NodeKind::Protocol)
        } else if same_text(word, "location") {
            Some(NodeKind::Location)
        } else if same_text(word, "cluster") {
            Some(NodeKind::Cluster)
        } else if same_text(word, "node") {
            Some(NodeKind::Node)
        } else if same_text(word, "stage") {
            Some(NodeKind::Stage)
        } else if same_text(word, "endpoint") {
            Some(NodeKind::Endpoint)
        } else {
            None
        }
    }
}

impl Default for NodeKind {
    /// What a word no variant is called reads as.
    fn default() -> (r: Self)
        ensures
            r == NodeKind::Computer,
    {
        NodeKind::Computer
    }
}

/// Every node kind's word names it back.
pub proof fn law_node_kind_word_names_it(value: NodeKind)
    ensures
        node_kind_named(node_kind_word(value)) == Some(value),
{
    reveal_strlit("computer");
    reveal_strlit("server");
    reveal_strlit("virtual-machine");
    reveal_strlit("gateway");
    reveal_strlit("appliance");
    reveal_strlit("service");
    reveal_strlit("process");
    reveal_strlit("interface");
    reveal_strlit("port");
    reveal_strlit("protocol");
    reveal_strlit("location");
    reveal_strlit("cluster");
    reveal_strlit("node");
    reveal_strlit("stage");
    reveal_strlit("endpoint");
    assert("computer"@.len() == 8);
    assert("server"@.len() == 6);
    assert("virtual-machine"@.len() == 15);
    assert("gateway"@.len() == 7);
    assert("appliance"@.len() == 9);
    assert("service"@.len() == 7);
    assert("process"@.len() == 7);
    assert("interface"@.len() == 9);
    assert("port"@.len() == 4);
    assert("protocol"@.len() == 8);
    assert("location"@.len() == 8);
    assert("cluster"@.len() == 7);
    assert("node"@.len() == 4);
    assert("stage"@.len() == 5);
    assert("endpoint"@.len() == 8);
    assert("computer"@[0] != "protocol"@[0]);
    assert("computer"@ != "protocol"@);
    assert("computer"@[0] != "location"@[0]);
    assert("computer"@ != "location"@);
    assert("computer"@[0] != "endpoint"@[0]);
    assert("computer"@ != "endpoint"@);
    assert("gateway"@[0] != "service"@[0]);
    assert("gateway"@ != "service"@);
    assert("gateway"@[0] != "process"@[0]);
    assert("gateway"@ != "process"@);
    assert("gateway"@[0] != "cluster"@[0]);
    assert("gateway"@ != "cluster"@);
    assert("appliance"@[0] != "interface"@[0]);
    assert("appliance"@ != "interface"@);
    assert("service"@[0] != "process"@[0]);
    assert("service"@ != "process"@);
    assert("service"@[0] != "cluster"@[0]);
    assert("service"@ != "cluster"@);
    assert("process"@[0] != "cluster"@[0]);
    assert("process"@ != "cluster"@);
    assert("port"@[0] != "node"@[0]);
    assert("port"@ != "node"@);
    assert("protocol"@[0] != "location"@[0]);
    assert("protocol"@ != "location"@);
    assert("protocol"@[0] != "endpoint"@[0]);
    assert("protocol"@ != "endpoint"@);
    assert("location"@[0] != "endpoint"@[0]);
    assert("location"@ != "endpoint"@);
}

/// What an unknown word reads as: the node kind's fallback.
pub open spec fn node_kind_read(word: Seq<char>) -> NodeKind {
    match node_kind_named(word) {
        Some(value) => value,
        None => NodeKind::Computer,
    }
}

impl NodeKind {
    /// The variant a word names, or the fallback when no variant is called
    /// that: how a reader reads a word it may not know.
    pub fn read(word: &str) -> (r: NodeKind)
        ensures
            r == node_kind_read(word@),
    {
        match NodeKind::named(word) {
            Some(value) => value,
            None => NodeKind::Computer,
        }
    }
}

/// Where a topology fact came from.
#[derive(Clone, Copy, Debug, PartialEq, Eq, Structural)]
pub enum Origin {
    /// Declared by configuration but not observed in the current window.
    Configured,
    /// Observed at runtime but not present in the loaded configuration.
    Observed,
    /// Both configured and observed.
    Both,
}

/// The word a publication writes for an origin.
pub open spec fn origin_word(value: Origin) -> Seq<char> {
    match value {
        Origin::Configured => "configured"@,
        Origin::Observed => "observed"@,
        Origin::Both => "both"@,
    }
}

/// What a person reads an origin by.
pub open spec fn origin_name(value: Origin) -> Seq<char> {
    match value {
        Origin::Configured => "configured"@,
        Origin::Observed => "observed"@,
        Origin::Both => "configured and observed"@,
    }
}

/// The origin a word names, exactly, or `None`.
pub open spec fn origin_named(word: Seq<char>) -> Option<Origin> {
    if word == origin_word(Origin::Configured) {
        Some(Origin::Configured)
    } else if word == origin_word(Origin::Observed) {
        Some(Origin::Observed)
    } else if word == origin_word(Origin::Both) {
        Some(Origin::Both)
    } else {
        None
    }
}

impl Origin {
    /// Every variant, in the order the header numbers them.
    pub const ALL: [Origin; 3] = [
        Origin::Configured,
        Origin::Observed,
        Origin::Both,
    ];

    /// The word a publication writes.
    pub fn word(self) -> (r: &'static str)
        ensures
            r@ == origin_word(self),
    {
        match self {
            Origin::Configured => "configured",
            Origin::Observed => "observed",
            Origin::Both => "both",
        }
    }

    /// What a surface calls it where a person reads it: under a node on
    /// the canvas, in the legend, in the inspector's rows.
    pub fn name(self) -> (r: &'static str)
        ensures
            r@ == origin_name(self),
    {
        match self {
            Origin::Configured => "configured",
            Origin::Observed => "observed",
            Origin::Both => "configured and observed",
        }
    }

    /// The variant a word names, exactly, or `None`.
    pub fn named(word: &str) -> (r: Option<Origin>)
        ensures
            r == origin_named(word@),
    {
        if same_text(word, "configured") {
            Some(Origin::Configured)
        } else if same_text(word, "observed") {
            Some(Origin::Observed)
        } else if same_text(word, "both") {
            Some(Origin::Both)
        } else {
            None
        }
    }
}

impl Default for Origin {
    /// What a word no variant is called reads as.
    fn default() -> (r: Self)
        ensures
            r == Origin::Both,
    {
        Origin::Both
    }
}

/// Every origin's word names it back.
pub proof fn law_origin_word_names_it(value: Origin)
    ensures
        origin_named(origin_word(value)) == Some(value),
{
    reveal_strlit("configured");
    reveal_strlit("observed");
    reveal_strlit("both");
    assert("configured"@.len() == 10);
    assert("observed"@.len() == 8);
    assert("both"@.len() == 4);
}

/// What an unknown word reads as: the origin's fallback.
pub open spec fn origin_read(word: Seq<char>) -> Origin {
    match origin_named(word) {
        Some(value) => value,
        None => Origin::Both,
    }
}

impl Origin {
    /// The variant a word names, or the fallback when no variant is called
    /// that: how a reader reads a word it may not know.
    pub fn read(word: &str) -> (r: Origin)
        ensures
            r == origin_read(word@),
    {
        match Origin::named(word) {
            Some(value) => value,
            None => Origin::Both,
        }
    }
}

/// The application meaning of communication, separate from wire traffic.
#[derive(Clone, Copy, Debug, PartialEq, Eq, Structural)]
pub enum Pattern {
    RequestResponse,
    SendReceive,
    PublishConsume,
    Streaming,
    FireAndForget,
    Session,
    Retry,
}

/// The word a publication writes for a pattern.
pub open spec fn pattern_word(value: Pattern) -> Seq<char> {
    match value {
        Pattern::RequestResponse => "request-response"@,
        Pattern::SendReceive => "send-receive"@,
        Pattern::PublishConsume => "publish-consume"@,
        Pattern::Streaming => "streaming"@,
        Pattern::FireAndForget => "fire-and-forget"@,
        Pattern::Session => "session"@,
        Pattern::Retry => "retry"@,
    }
}

/// What a person reads a pattern by.
pub open spec fn pattern_name(value: Pattern) -> Seq<char> {
    match value {
        Pattern::RequestResponse => "Request / response"@,
        Pattern::SendReceive => "Send → receive"@,
        Pattern::PublishConsume => "Publish → consume"@,
        Pattern::Streaming => "Streaming"@,
        Pattern::FireAndForget => "Fire-and-forget"@,
        Pattern::Session => "Session"@,
        Pattern::Retry => "Retry"@,
    }
}

/// The pattern a word names, exactly, or `None`.
pub open spec fn pattern_named(word: Seq<char>) -> Option<Pattern> {
    if word == pattern_word(Pattern::RequestResponse) {
        Some(Pattern::RequestResponse)
    } else if word == pattern_word(Pattern::SendReceive) {
        Some(Pattern::SendReceive)
    } else if word == pattern_word(Pattern::PublishConsume) {
        Some(Pattern::PublishConsume)
    } else if word == pattern_word(Pattern::Streaming) {
        Some(Pattern::Streaming)
    } else if word == pattern_word(Pattern::FireAndForget) {
        Some(Pattern::FireAndForget)
    } else if word == pattern_word(Pattern::Session) {
        Some(Pattern::Session)
    } else if word == pattern_word(Pattern::Retry) {
        Some(Pattern::Retry)
    } else {
        None
    }
}

impl Pattern {
    /// Every variant, in the order the header numbers them.
    pub const ALL: [Pattern; 7] = [
        Pattern::RequestResponse,
        Pattern::SendReceive,
        Pattern::PublishConsume,
        Pattern::Streaming,
        Pattern::FireAndForget,
        Pattern::Session,
        Pattern::Retry,
    ];

    /// The word a publication writes.
    pub fn word(self) -> (r: &'static str)
        ensures
            r@ == pattern_word(self),
    {
        match self {
            Pattern::RequestResponse => "request-response",
            Pattern::SendReceive => "send-receive",
            Pattern::PublishConsume => "publish-consume",
            Pattern::Streaming => "streaming",
            Pattern::FireAndForget => "fire-and-forget",
            Pattern::Session => "session",
            Pattern::Retry => "retry",
        }
    }

    /// What a surface calls it where a person reads it: under a node on
    /// the canvas, in the legend, in the inspector's rows.
    pub fn name(self) -> (r: &'static str)
        ensures
            r@ == pattern_name(self),
    {
        match self {
            Pattern::RequestResponse => "Request / response",
            Pattern::SendReceive => "Send → receive",
            Pattern::PublishConsume => "Publish → consume",
            Pattern::Streaming => "Streaming",
            Pattern::FireAndForget => "Fire-and-forget",
            Pattern::Session => "Session",
            Pattern::Retry => "Retry",
        }
    }

    /// The variant a word names, exactly, or `None`.
    pub fn named(word: &str) -> (r: Option<Pattern>)
        ensures
            r == pattern_named(word@),
    {
        if same_text(word, "request-response") {
            Some(Pattern::RequestResponse)
        } else if same_text(word, "send-receive") {
            Some(Pattern::SendReceive)
        } else if same_text(word, "publish-consume") {
            Some(Pattern::PublishConsume)
        } else if same_text(word, "streaming") {
            Some(Pattern::Streaming)
        } else if same_text(word, "fire-and-forget") {
            Some(Pattern::FireAndForget)
        } else if same_text(word, "session") {
            Some(Pattern::Session)
        } else if same_text(word, "retry") {
            Some(Pattern::Retry)
        } else {
            None
        }
    }
}

impl Default for Pattern {
    /// What a word no variant is called reads as.
    fn default() -> (r: Self)
        ensures
            r == Pattern::SendReceive,
    {
        Pattern::SendReceive
    }
}

/// Every pattern's word names it back.
pub proof fn law_pattern_word_names_it(value: Pattern)
    ensures
        pattern_named(pattern_word(value)) == Some(value),
{
    reveal_strlit("request-response");
    reveal_strlit("send-receive");
    reveal_strlit("publish-consume");
    reveal_strlit("streaming");
    reveal_strlit("fire-and-forget");
    reveal_strlit("session");
    reveal_strlit("retry");
    assert("request-response"@.len() == 16);
    assert("send-receive"@.len() == 12);
    assert("publish-consume"@.len() == 15);
    assert("streaming"@.len() == 9);
    assert("fire-and-forget"@.len() == 15);
    assert("session"@.len() == 7);
    assert("retry"@.len() == 5);
    assert("publish-consume"@[0] != "fire-and-forget"@[0]);
    assert("publish-consume"@ != "fire-and-forget"@);
}

/// A pattern is named, not spelled: the name a person reads is never the
/// word a publication writes.
pub proof fn law_pattern_named_not_spelled(value: Pattern)
    ensures
        pattern_name(value) != pattern_word(value),
{
    reveal_strlit("request-response");
    reveal_strlit("send-receive");
    reveal_strlit("publish-consume");
    reveal_strlit("streaming");
    reveal_strlit("fire-and-forget");
    reveal_strlit("session");
    reveal_strlit("retry");
    reveal_strlit("Request / response");
    reveal_strlit("Send → receive");
    reveal_strlit("Publish → consume");
    reveal_strlit("Streaming");
    reveal_strlit("Fire-and-forget");
    reveal_strlit("Session");
    reveal_strlit("Retry");
    assert(pattern_name(value)[0] != pattern_word(value)[0]);
}

/// What an unknown word reads as: the pattern's fallback.
pub open spec fn pattern_read(word: Seq<char>) -> Pattern {
    match pattern_named(word) {
        Some(value) => value,
        None => Pattern::SendReceive,
    }
}

impl Pattern {
    /// The variant a word names, or the fallback when no variant is called
    /// that: how a reader reads a word it may not know.
    pub fn read(word: &str) -> (r: Pattern)
        ensures
            r == pattern_read(word@),
    {
        match Pattern::named(word) {
            Some(value) => value,
            None => Pattern::SendReceive,
        }
    }
}

/// The volume the first link of `before` called `id` carried, or `None`
/// when `before` carried no link of that id.
pub open spec fn volume_before(before: Seq<(String, u64)>, id: Seq<char>) -> Option<u64>
    decreases before.len(),
{
    if before.len() == 0 {
        None
    } else if before[0].0@ == id {
        Some(before[0].1)
    } else {
        volume_before(before.drop_first(), id)
    }
}

/// How far a link's volume rose since the earlier reading: `None` when the
/// earlier reading did not carry it or its volume fell, for its publisher
/// started over.
pub open spec fn rise_since(link: (String, u64), before: Seq<(String, u64)>) -> Option<u64> {
    match volume_before(before, link.0@) {
        Some(v) => if v <= link.1 {
            Some((link.1 - v) as u64)
        } else {
            None
        },
        None => None,
    }
}

/// What a link's rate rests on, between a reading at `now` and one at
/// `previous`: the nanoseconds between them and, for each link of `links`
/// by its id and volume, how far its volume rose since `before`. `None`
/// when no time lies between the two: no interval is no rate, never a zero
/// one. A link whose rise is `None` keeps the rate it had.
pub fn rises_since(
    now: i64,
    previous: i64,
    links: &Vec<(String, u64)>,
    before: &Vec<(String, u64)>,
) -> (r: Option<(i64, Vec<Option<u64>>)>)
    requires
        i64::MIN <= now - previous <= i64::MAX,
    ensures
        r is None <==> now - previous <= 0,
        r matches Some((nanos, rises)) ==> {
            &&& nanos == now - previous
            &&& rises@.len() == links@.len()
            &&& forall|i: int|
                0 <= i < links@.len() ==> #[trigger] rises@[i] == rise_since(links@[i], before@)
            &&& forall|i: int| 0 <= i < links@.len() ==> rises_from_its_own(links@[i], before@, #[trigger] rises@[i])
        },
{
    let nanos = now - previous;
    if nanos <= 0 {
        return None;
    }
    let mut rises: Vec<Option<u64>> = Vec::new();
    let mut i: usize = 0;
    while i < links.len()
        invariant
            i <= links@.len(),
            rises@.len() == i,
            forall|q: int| 0 <= q < i ==> #[trigger] rises@[q] == rise_since(links@[q], before@),
        decreases links@.len() - i,
    {
        let id = links[i].0.as_str();
        let volume = links[i].1;
        let mut j: usize = 0;
        let mut found: Option<u64> = None;
        assert(before@.skip(0) =~= before@);
        while j < before.len() && found.is_none()
            invariant
                j <= before@.len(),
                id@ == links@[i as int].0@,
                found is None ==> volume_before(before@, id@) == volume_before(
                    before@.skip(j as int),
                    id@,
                ),
                found is Some ==> found == volume_before(before@, id@),
            decreases before@.len() - j,
        {
            assert(before@.skip(j as int).drop_first() =~= before@.skip(j + 1));
            assert(before@.skip(j as int)[0] == before@[j as int]);
            if same_text(before[j].0.as_str(), id) {
                found = Some(before[j].1);
            }
            j = j + 1;
        }
        proof {
            if found is None {
                assert(before@.skip(j as int) =~= Seq::<(String, u64)>::empty());
            }
        }
        let rise = match found {
            Some(v) => if v <= volume {
                Some(volume - v)
            } else {
                None
            },
            None => None,
        };
        rises.push(rise);
        i = i + 1;
    }
    proof {
        assert forall|i: int| 0 <= i < links@.len() implies rises_from_its_own(links@[i], before@, #[trigger] rises@[i]) by {
            law_a_link_rises_from_its_own(links@[i], before@);
        }
    }
    Some((nanos, rises))
}

/// Whether `rise` is how far `link` rose from the earlier reading's first
/// link with the same id — none when that reading carried no link of the
/// same id or that link's volume was higher — whatever other ids precede it.
pub open spec fn rises_from_its_own(link: (String, u64), before: Seq<(String, u64)>, rise: Option<u64>) -> bool {
    &&& (forall|j: int| 0 <= j < before.len() ==> before[j].0@ != link.0@) ==> rise is None
    &&& forall|j: int|
        0 <= j < before.len() && #[trigger] before[j].0@ == link.0@ && (forall|k: int|
            0 <= k < j ==> before[k].0@ != link.0@) ==> rise == if before[j].1 <= link.1 {
            Some((link.1 - before[j].1) as u64)
        } else {
            None
        }
}

/// A link rises from the earlier link of its own id: the first one of the
/// same id in the earlier reading, whatever other ids precede it; a link
/// the earlier reading did not carry has no rise.
pub proof fn law_a_link_rises_from_its_own(link: (String, u64), before: Seq<(String, u64)>)
    ensures
        rises_from_its_own(link, before, rise_since(link, before)),
{
    lemma_volume_before(before, link.0@);
}

/// The volume before is that of the first link of the same id, and none
/// when no link has that id.
proof fn lemma_volume_before(before: Seq<(String, u64)>, id: Seq<char>)
    ensures
        (forall|j: int| 0 <= j < before.len() ==> before[j].0@ != id) ==> volume_before(before, id) is None,
        forall|j: int|
            0 <= j < before.len() && #[trigger] before[j].0@ == id && (forall|k: int| 0 <= k < j ==> before[k].0@ != id)
                ==> volume_before(before, id) == Some(before[j].1),
    decreases before.len(),
{
    if before.len() > 0 {
        let rest = before.drop_first();
        lemma_volume_before(rest, id);
        if forall|j: int| 0 <= j < before.len() ==> before[j].0@ != id {
            assert forall|j: int| 0 <= j < rest.len() implies rest[j].0@ != id by {
                assert(rest[j] == before[j + 1]);
            }
        }
        assert forall|j: int|
            0 <= j < before.len() && #[trigger] before[j].0@ == id && (forall|k: int| 0 <= k < j ==> before[k].0@ != id)
            implies volume_before(before, id) == Some(before[j].1) by {
            if j > 0 {
                assert(before[0].0@ != id);
                assert(rest[j - 1] == before[j]);
                assert forall|k: int| 0 <= k < j - 1 implies rest[k].0@ != id by {
                    assert(rest[k] == before[k + 1]);
                }
            }
        }
    }
}

/// What a drawn node is labelled by: its label, or its id when it has none.
pub fn label_or_id(label: &str, id: &str) -> (r: String)
    ensures
        r@ == if label@.len() == 0 {
            id@
        } else {
            label@
        },
{
    proof {
        reveal_strlit("");
    }
    assert(label@.len() == 0 ==> label@ =~= ""@);
    if same_text(label, "") {
        id.to_owned()
    } else {
        label.to_owned()
    }
}

} // verus!