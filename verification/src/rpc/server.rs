//! Answering requests: what a node knows of the network, and what it stores for others.

use super::Rpc;
use crate::address::SocketAddr;
use crate::buffer::{copy_to_vec, from_vec};
use crate::cache::{
    cache_get, cache_put, find_value, has_key, key_of, stored, used, Key, Stored, StoredView,
};
use crate::id::Id;
use crate::integrity::law_handle_request_keeps_wf;
use crate::item::{immutable_target, validate_immutable, ItemView, MutableItem};
use crate::messages::{
    clone_bytes, ErrorSpecific, ErrorView, FindNodeResponseArguments, GetImmutableResponseArguments,
    GetMutableResponseArguments, GetPeersResponseArguments, MessageTypeView,
    NoMoreRecentValueResponseArguments, NoValuesResponseArguments, PingResponseArguments,
    PutMutableRequestArguments, RequestSpecific, RequestView, ResponseSpecific, ResponseView,
};
use crate::node::option_bytes;
use crate::peers::Peer;
use crate::seqs::lemma_first_index;
use crate::state::{CacheView, RpcView};
use crate::tokens::token_for;
use vstd::prelude::*;

verus! {

/// How long a value may be that is to be stored.
pub const MAX_VALUE_LENGTH: usize = 1000;

/// How long a salt may be.
pub const MAX_SALT_LENGTH: usize = 64;

/// Why a request to store something is refused before what it brings is looked at: its token is not
/// one that its host was handed, or its value or its salt is too long.
pub open spec fn put_refusal(token_valid: bool, value_length: nat, salt_length: nat) -> Option<
    ErrorView,
> {
    if !token_valid {
        Some(ErrorView { code: 203, description: "Bad token"@ })
    } else if value_length > MAX_VALUE_LENGTH {
        Some(ErrorView { code: 205, description: "Message (v field) too big."@ })
    } else if salt_length > MAX_SALT_LENGTH {
        Some(ErrorView { code: 207, description: "salt (salt field) too big."@ })
    } else {
        None
    }
}

/// Why an immutable value is refused: its target is not the one that it stands for.
pub open spec fn immutable_refusal(target_valid: bool) -> Option<ErrorView> {
    if target_valid {
        None
    } else {
        Some(
            ErrorView {
                code: 203,
                description: "Target doesn't match the sha1 hash of v field"@,
            },
        )
    }
}

/// Why a mutable item is refused: the item that is stored, of which the sequence number is given,
/// is not the one that it may replace, or has a higher sequence number; or its signature does not
/// hold.
pub open spec fn mutable_refusal(
    stored_seq: Option<i64>,
    cas: Option<i64>,
    seq: i64,
    signed: bool,
) -> Option<ErrorView> {
    if stored_seq is Some && cas is Some && cas != stored_seq {
        Some(
            ErrorView {
                code: 301,
                description: "CAS mismatched, re-read value and try again."@,
            },
        )
    } else if stored_seq is Some && seq < stored_seq->0 {
        Some(ErrorView { code: 302, description: "Sequence number less than current"@ })
    } else if !signed {
        Some(ErrorView { code: 206, description: "Invalid signature"@ })
    } else {
        None
    }
}

/// What an optional error says.
pub open spec fn option_error(error: Option<ErrorSpecific>) -> Option<ErrorView> {
    match error {
        Some(error) => Some(error@),
        None => None,
    }
}

fn error(code: i32, description: &str) -> (r: Option<ErrorSpecific>)
    ensures
        option_error(r) == Some(ErrorView { code, description: description@ }),
{
    Some(ErrorSpecific { code, description: description.to_owned() })
}

/// Why a request to store something is refused before what it brings is looked at.
pub fn check_put(token_valid: bool, value_length: usize, salt_length: usize) -> (r: Option<
    ErrorSpecific,
>)
    ensures
        option_error(r) == put_refusal(token_valid, value_length as nat, salt_length as nat),
{
    if !token_valid {
        error(203, "Bad token")
    } else if value_length > MAX_VALUE_LENGTH {
        error(205, "Message (v field) too big.")
    } else if salt_length > MAX_SALT_LENGTH {
        error(207, "salt (salt field) too big.")
    } else {
        None
    }
}

/// Why an immutable value is refused.
pub fn check_immutable(target_valid: bool) -> (r: Option<ErrorSpecific>)
    ensures
        option_error(r) == immutable_refusal(target_valid),
{
    if target_valid {
        None
    } else {
        error(203, "Target doesn't match the sha1 hash of v field")
    }
}

/// Why a mutable item is refused.
pub fn check_mutable(
    stored_seq: Option<i64>,
    cas: Option<i64>,
    seq: i64,
    signed: bool,
) -> (r: Option<ErrorSpecific>)
    ensures
        option_error(r) == mutable_refusal(stored_seq, cas, seq, signed),
{
    if let Some(stored_seq) = stored_seq {
        if let Some(cas) = cas {
            if cas != stored_seq {
                return error(301, "CAS mismatched, re-read value and try again.");
            }
        }
        if seq < stored_seq {
            return error(302, "Sequence number less than current");
        }
    }
    if signed {
        None
    } else {
        error(206, "Invalid signature")
    }
}

impl CacheView {
    /// The value under an identifier.
    pub open spec fn find(self, id: Id) -> Option<StoredView> {
        find_value(self.entries, key_of(id))
    }

    /// The store after the value under an identifier was used.
    pub open spec fn touch(self, id: Id) -> CacheView {
        CacheView { entries: used(self.entries, key_of(id)), ..self }
    }

    /// The store with a value put under an identifier.
    pub open spec fn put(self, id: Id, value: StoredView) -> CacheView {
        CacheView { entries: stored(self.entries, self.capacity, key_of(id), value), ..self }
    }
}

impl RpcView {
    /// Sending a response.
    pub open spec fn respond(
        self,
        to: SocketAddr,
        transaction_id: u16,
        response: ResponseView,
    ) -> RpcView {
        RpcView {
            socket: self.socket.reply(to, transaction_id, MessageTypeView::Response(response)),
            ..self
        }
    }

    /// Refusing a request.
    pub open spec fn refuse(
        self,
        to: SocketAddr,
        transaction_id: u16,
        error: ErrorView,
    ) -> RpcView {
        RpcView {
            socket: self.socket.reply(to, transaction_id, MessageTypeView::Error(error)),
            ..self
        }
    }

    /// Saying that a request was carried out, or that the node is there.
    pub open spec fn acknowledge(self, to: SocketAddr, transaction_id: u16) -> RpcView {
        self.respond(to, transaction_id, ResponseView::Ping { responder_id: self.id })
    }

    /// The token that a node is handed.
    pub open spec fn token(self, to: SocketAddr) -> Seq<u8> {
        token_for(to.ip, self.tokens.curr_secret)
    }

    /// Answering a request for peers: the last that announced themselves, or that there are none.
    pub open spec fn handle_get_peers(
        self,
        from: SocketAddr,
        transaction_id: u16,
        info_hash: Id,
    ) -> RpcView {
        let values = self.peers.recent_peers(info_hash);
        let nodes = Some(self.routing_table.closest(info_hash));
        let token = self.token(from);
        self.respond(
            from,
            transaction_id,
            if values.len() == 0 {
                ResponseView::NoValues { responder_id: self.id, token, nodes }
            } else {
                ResponseView::GetPeers { responder_id: self.id, token, values, nodes }
            },
        )
    }

    /// Answering a request for a value: the immutable one under the target, unless a sequence
    /// number is named; otherwise the mutable one, unless its sequence number is not above the one
    /// named; otherwise that there is none.
    pub open spec fn handle_get_value(
        self,
        from: SocketAddr,
        transaction_id: u16,
        target: Id,
        seq: Option<i64>,
    ) -> RpcView {
        let nodes = Some(self.routing_table.closest(target));
        let token = self.token(from);
        match (seq, self.immutable_values.find(target)) {
            (None, Some(StoredView::Immutable(v))) => RpcView {
                immutable_values: self.immutable_values.touch(target),
                ..self
            }.respond(
                from,
                transaction_id,
                ResponseView::GetImmutable { responder_id: self.id, token, nodes, v },
            ),
            _ => match self.mutable_values.find(target) {
                Some(StoredView::Mutable(item)) => RpcView {
                    mutable_values: self.mutable_values.touch(target),
                    ..self
                }.respond(
                    from,
                    transaction_id,
                    if seq is Some && item.seq <= seq->0 {
                        ResponseView::NoMoreRecentValue {
                            responder_id: self.id,
                            token,
                            nodes,
                            seq: item.seq,
                        }
                    } else {
                        ResponseView::GetMutable {
                            responder_id: self.id,
                            token,
                            nodes,
                            v: item.value,
                            k: item.key,
                            seq: item.seq,
                            sig: item.signature,
                        }
                    },
                ),
                _ => self.respond(
                    from,
                    transaction_id,
                    ResponseView::NoValues { responder_id: self.id, token, nodes },
                ),
            },
        }
    }

    /// Storing a mutable item whose token and lengths are in order, unless it is refused for
    /// another reason.
    pub open spec fn handle_put_mutable(
        self,
        from: SocketAddr,
        transaction_id: u16,
        item: ItemView,
    ) -> RpcView {
        let looked = RpcView { mutable_values: self.mutable_values.touch(item.target), ..self };
        let stored_seq = match self.mutable_values.find(item.target) {
            Some(StoredView::Mutable(stored)) => Some(stored.seq),
            _ => None,
        };
        match mutable_refusal(stored_seq, item.cas, item.seq, item.signed()) {
            Some(error) => looked.refuse(from, transaction_id, error),
            None => RpcView {
                mutable_values: looked.mutable_values.put(item.target, StoredView::Mutable(item)),
                ..looked
            }.acknowledge(from, transaction_id),
        }
    }

    /// Answering a request.
    ///
    /// What is to be stored needs a token that this node handed to the host it comes from.
    pub open spec fn handle_request(
        self,
        from: SocketAddr,
        transaction_id: u16,
        request: RequestView,
    ) -> RpcView {
        match request {
            RequestView::Ping { .. } => self.acknowledge(from, transaction_id),
            RequestView::FindNode { target, .. } => self.respond(
                from,
                transaction_id,
                ResponseView::FindNode {
                    responder_id: self.id,
                    nodes: self.routing_table.closest(target),
                },
            ),
            RequestView::GetPeers { info_hash, .. } => self.handle_get_peers(
                from,
                transaction_id,
                info_hash,
            ),
            RequestView::GetValue { target, seq, .. } => self.handle_get_value(
                from,
                transaction_id,
                target,
                seq,
            ),
            RequestView::AnnouncePeer { requester_id, info_hash, port, implied_port, token } => {
                let address = if implied_port == Some(true) {
                    from
                } else {
                    SocketAddr { ip: from.ip, port }
                };
                match put_refusal(self.tokens.accepts(from, token), 0, 0) {
                    Some(error) => self.refuse(from, transaction_id, error),
                    None => RpcView {
                        peers: self.peers.add_peer(info_hash, Peer { id: requester_id, address }),
                        ..self
                    }.acknowledge(from, transaction_id),
                }
            },
            RequestView::PutImmutable { target, token, v, .. } => {
                match put_refusal(self.tokens.accepts(from, token), v.len(), 0) {
                    Some(error) => self.refuse(from, transaction_id, error),
                    None => match immutable_refusal(immutable_target(v) == target) {
                        Some(error) => self.refuse(from, transaction_id, error),
                        None => RpcView {
                            immutable_values: self.immutable_values.put(
                                target,
                                StoredView::Immutable(v),
                            ),
                            ..self
                        }.acknowledge(from, transaction_id),
                    },
                }
            },
            RequestView::PutMutable { target, token, v, k, seq, sig, salt, cas, .. } => {
                let salt_length = match salt {
                    Some(salt) => salt.len(),
                    None => 0,
                };
                match put_refusal(self.tokens.accepts(from, token), v.len(), salt_length) {
                    Some(error) => self.refuse(from, transaction_id, error),
                    None => self.handle_put_mutable(
                        from,
                        transaction_id,
                        ItemView { target, key: k, seq, value: v, signature: sig, salt, cas },
                    ),
                }
            },
        }
    }
}

/// What is found under an identifier is what some entry with its key holds.
proof fn lemma_found(cache: CacheView, id: Id)
    ensures
        cache.find(id) matches Some(value) ==> exists|i: int|
            0 <= i < cache.entries.len() && #[trigger] cache.entries[i] == (key_of(id), value),
        cache.find(id) is None ==> cache.touch(id) == cache,
{
    lemma_first_index(cache.entries, has_key(key_of(id)));
}

impl Rpc {
    /// Sends a response.
    pub fn respond(
        &mut self,
        address: SocketAddr,
        transaction_id: u16,
        response_specific: ResponseSpecific,
    )
        ensures
            final(self)@ == old(self)@.respond(address, transaction_id, response_specific@),
            old(self)@.wf() ==> final(self)@.wf(),
    {
        self.socket.response(address, transaction_id, response_specific);
    }

    /// Refuses a request.
    fn refuse(&mut self, to: SocketAddr, transaction_id: u16, error: ErrorSpecific)
        ensures
            final(self)@ == old(self)@.refuse(to, transaction_id, error@),
    {
        self.socket.error(to, transaction_id, error);
    }

    /// Says that a request was carried out, or that the node is there.
    fn acknowledge(&mut self, to: SocketAddr, transaction_id: u16)
        ensures
            final(self)@ == old(self)@.acknowledge(to, transaction_id),
    {
        let responder_id = self.id;
        self.respond(
            to,
            transaction_id,
            ResponseSpecific::Ping(PingResponseArguments { responder_id }),
        );
    }

    fn handle_get_peers(&mut self, from: SocketAddr, transaction_id: u16, info_hash: &Id)
        ensures
            final(self)@ == old(self)@.handle_get_peers(from, transaction_id, *info_hash),
    {
        let responder_id = self.id;
        let values = self.peers.recent_peers(info_hash);
        let nodes = Some(self.routing_table.closest(info_hash));
        let token = self.tokens.generate_token(&from);
        let response = if values.len() == 0 {
            ResponseSpecific::NoValues(NoValuesResponseArguments { responder_id, token, nodes })
        } else {
            ResponseSpecific::GetPeers(
                GetPeersResponseArguments { responder_id, token, values, nodes },
            )
        };
        self.respond(from, transaction_id, response);
    }

    fn handle_get_value(
        &mut self,
        from: SocketAddr,
        transaction_id: u16,
        target: &Id,
        seq: &Option<i64>,
    )
        requires
            old(self)@.wf(),
        ensures
            final(self)@ == old(self)@.handle_get_value(from, transaction_id, *target, *seq),
    {
        let ghost before = self@;
        proof {
            lemma_found(before.immutable_values, *target);
            lemma_found(before.mutable_values, *target);
        }
        let responder_id = self.id;
        let nodes = Some(self.routing_table.closest(target));
        let token = self.tokens.generate_token(&from);
        let key: Key = (target.hi, target.lo);
        if seq.is_none() {
            let value: Option<Vec<u8>> = match cache_get(&mut self.immutable_values, &key) {
                Some(Stored::Immutable(value)) => Some(copy_to_vec(value)),
                _ => None,
            };
            if let Some(v) = value {
                self.respond(
                    from,
                    transaction_id,
                    ResponseSpecific::GetImmutable(
                        GetImmutableResponseArguments { responder_id, token, nodes, v },
                    ),
                );
                return;
            }
            assert(self@ == before);
        }
        let item: Option<MutableItem> = match cache_get(&mut self.mutable_values, &key) {
            Some(Stored::Mutable(item)) => Some(item.clone()),
            _ => None,
        };
        let response = match item {
            Some(item) => {
                let more_recent = match seq {
                    Some(seq) => *item.seq() > *seq,
                    None => true,
                };
                if more_recent {
                    ResponseSpecific::GetMutable(
                        GetMutableResponseArguments {
                            responder_id,
                            token,
                            nodes,
                            v: copy_to_vec(item.value()),
                            k: clone_bytes(item.key()),
                            seq: *item.seq(),
                            sig: clone_bytes(item.signature()),
                        },
                    )
                } else {
                    ResponseSpecific::NoMoreRecentValue(
                        NoMoreRecentValueResponseArguments {
                            responder_id,
                            token,
                            nodes,
                            seq: *item.seq(),
                        },
                    )
                }
            },
            None => ResponseSpecific::NoValues(
                NoValuesResponseArguments { responder_id, token, nodes },
            ),
        };
        self.respond(from, transaction_id, response);
    }

    fn handle_put_mutable(
        &mut self,
        from: SocketAddr,
        transaction_id: u16,
        arguments: &PutMutableRequestArguments,
    )
        requires
            old(self)@.wf(),
        ensures
            final(self)@ == old(self)@.handle_put_mutable(
                from,
                transaction_id,
                ItemView {
                    target: arguments.target,
                    key: arguments.k@,
                    seq: arguments.seq,
                    value: arguments.v@,
                    signature: arguments.sig@,
                    salt: option_bytes(arguments.salt),
                    cas: arguments.cas,
                },
            ),
    {
        let ghost before = self@;
        proof {
            lemma_found(before.mutable_values, arguments.target);
        }
        let target = arguments.target;
        let key: Key = (target.hi, target.lo);
        let stored_seq: Option<i64> = match cache_get(&mut self.mutable_values, &key) {
            Some(Stored::Mutable(item)) => Some(*item.seq()),
            _ => None,
        };
        let salt = match &arguments.salt {
            Some(salt) => Some(from_vec(clone_bytes(salt))),
            None => None,
        };
        let item = MutableItem::from_dht_message(
            &target,
            &arguments.k,
            from_vec(clone_bytes(&arguments.v)),
            &arguments.seq,
            &arguments.sig,
            &salt,
            &arguments.cas,
        );
        if let Some(error) = check_mutable(stored_seq, arguments.cas, arguments.seq, item.is_ok()) {
            self.refuse(from, transaction_id, error);
            return;
        }
        if let Ok(item) = item {
            cache_put(&mut self.mutable_values, key, Stored::Mutable(item));
            self.acknowledge(from, transaction_id);
        }
    }

    /// Answers a request, as [`RpcView::handle_request`] says.
    pub fn handle_request(
        &mut self,
        from: SocketAddr,
        transaction_id: u16,
        request_specific: &RequestSpecific,
    )
        requires
            old(self)@.wf(),
        ensures
            final(self)@ == old(self)@.handle_request(from, transaction_id, request_specific@),
            final(self)@.wf(),
    {
        proof {
            law_handle_request_keeps_wf(self@, from, transaction_id, request_specific@);
        }
        match request_specific {
            RequestSpecific::Ping(_) => {
                self.acknowledge(from, transaction_id);
            },
            RequestSpecific::FindNode(arguments) => {
                let response = FindNodeResponseArguments {
                    responder_id: self.id,
                    nodes: self.routing_table.closest(&arguments.target),
                };
                self.respond(from, transaction_id, ResponseSpecific::FindNode(response));
            },
            RequestSpecific::GetPeers(arguments) => {
                self.handle_get_peers(from, transaction_id, &arguments.info_hash);
            },
            RequestSpecific::GetValue(arguments) => {
                self.handle_get_value(from, transaction_id, &arguments.target, &arguments.seq);
            },
            RequestSpecific::AnnouncePeer(arguments) => {
                let token_valid = self.tokens.validate(&from, &arguments.token);
                if let Some(error) = check_put(token_valid, 0, 0) {
                    self.refuse(from, transaction_id, error);
                    return;
                }
                let address = match arguments.implied_port {
                    Some(true) => from,
                    _ => SocketAddr::new(from.ip, arguments.port),
                };
                self.peers.add_peer(
                    arguments.info_hash,
                    Peer { id: arguments.requester_id, address },
                );
                self.acknowledge(from, transaction_id);
            },
            RequestSpecific::PutImmutable(arguments) => {
                let token_valid = self.tokens.validate(&from, &arguments.token);
                if let Some(error) = check_put(token_valid, arguments.v.len(), 0) {
                    self.refuse(from, transaction_id, error);
                    return;
                }
                let target_valid = validate_immutable(&arguments.v, &arguments.target);
                if let Some(error) = check_immutable(target_valid) {
                    self.refuse(from, transaction_id, error);
                    return;
                }
                let key: Key = (arguments.target.hi, arguments.target.lo);
                let value = Stored::Immutable(from_vec(clone_bytes(&arguments.v)));
                cache_put(&mut self.immutable_values, key, value);
                self.acknowledge(from, transaction_id);
            },
            RequestSpecific::PutMutable(arguments) => {
                let token_valid = self.tokens.validate(&from, &arguments.token);
                let salt_length: usize = match &arguments.salt {
                    Some(salt) => salt.len(),
                    None => 0,
                };
                if let Some(error) = check_put(token_valid, arguments.v.len(), salt_length) {
                    self.refuse(from, transaction_id, error);
                    return;
                }
                self.handle_put_mutable(from, transaction_id, arguments);
            },
        }
    }
}

} // verus!
