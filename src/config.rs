use vstd::prelude::*;
use crate::text::{is_utf8, utf8_valid, copy_bytes};
use crate::varint::{
    DecodeError, tag_spec, ld_spec, skip_spec, varint_spec, read_tag, read_length_delimited,
    read_varint, skip_field, WIRE_TYPE_VARINT, WIRE_TYPE_LENGTH_DELIMITED,
};

verus! {

/// One served address: the tags it answers to, the IP text and the port,
/// taken from a `Uri` message that carried both an IP and a port.
#[derive(Debug)]
pub struct ExtractedInfo {
    pub tags: Vec<Vec<u8>>,
    pub ip: Vec<u8>,
    pub port: i32,
}

/// Mathematical form of an [`ExtractedInfo`].
pub struct InfoView {
    pub tags: Seq<Seq<u8>>,
    pub ip: Seq<u8>,
    pub port: i32,
}

pub open spec fn tags_view(t: Seq<Vec<u8>>) -> Seq<Seq<u8>> {
    t.map_values(|x: Vec<u8>| x@)
}

impl View for ExtractedInfo {
    type V = InfoView;

    open spec fn view(&self) -> InfoView {
        InfoView { tags: tags_view(self.tags@), ip: self.ip@, port: self.port }
    }
}

pub open spec fn infos_view(v: Seq<ExtractedInfo>) -> Seq<InfoView> {
    v.map_values(|x: ExtractedInfo| x@)
}

/// Bounds on what the wire-format readers consume from `s`.
proof fn lemma_consumed(s: Seq<u8>)
    ensures
        tag_spec(s) matches Ok((_, _, n)) ==> 0 < n <= s.len(),
        varint_spec(s) matches Ok((_, n)) ==> 0 < n <= s.len(),
        ld_spec(s) matches Ok((d, n)) ==> 0 < n <= s.len() && d == s.subrange(n - d.len(), n as int),
        forall|w: u32| #[trigger] skip_spec(s, w) matches Ok(n) ==> n <= s.len(),
{
    crate::varint::lemma_varint_len(s);
}

// ---- the fields of a `Uri` message: string ip = 1; int32 port = 2 ----

/// The last `ip` and `port` seen in the fields `s`, starting from `ip` and
/// `port`.
pub open spec fn uri_fields(s: Seq<u8>, ip: Option<Seq<u8>>, port: Option<i32>) -> Result<
    (Option<Seq<u8>>, Option<i32>),
    DecodeError,
>
    decreases s.len(),
    via uri_fields_decreases
{
    if s.len() == 0 {
        Ok((ip, port))
    } else {
        match tag_spec(s) {
            Err(e) => Err(e),
            Ok((f, w, n)) => {
                let s1 = s.skip(n as int);
                if f == 1 {
                    if w != 2 {
                        Err(DecodeError::WrongWireType)
                    } else {
                        match ld_spec(s1) {
                            Err(e) => Err(e),
                            Ok((d, m)) => if !is_utf8(d) {
                                Err(DecodeError::InvalidUtf8)
                            } else {
                                uri_fields(s1.skip(m as int), Some(d), port)
                            },
                        }
                    }
                } else if f == 2 {
                    if w != 0 {
                        Err(DecodeError::WrongWireType)
                    } else {
                        match varint_spec(s1) {
                            Err(e) => Err(e),
                            Ok((v, m)) => uri_fields(s1.skip(m as int), ip, Some(v as i32)),
                        }
                    }
                } else {
                    match skip_spec(s1, w) {
                        Err(e) => Err(e),
                        Ok(m) => uri_fields(s1.skip(m as int), ip, port),
                    }
                }
            },
        }
    }
}

#[via_fn]
proof fn uri_fields_decreases(s: Seq<u8>, ip: Option<Seq<u8>>, port: Option<i32>) {
    lemma_consumed(s);
    if let Ok((f, w, n)) = tag_spec(s) {
        lemma_consumed(s.skip(n as int));
    }
}

/// `acc` followed by what a `Uri` message with fields `s` adds, for the tags `tags`.
pub open spec fn uri_out(s: Seq<u8>, tags: Seq<Seq<u8>>, acc: Seq<InfoView>) -> Result<
    Seq<InfoView>,
    DecodeError,
> {
    match uri_fields(s, None, None) {
        Err(e) => Err(e),
        Ok((Some(ip), Some(port))) => Ok(acc.push(InfoView { tags, ip, port })),
        Ok(_) => Ok(acc),
    }
}

/// `after` extends `before`: the entries of `before` stay, in place, at its
/// front.
pub open spec fn keeps_prefix(before: Seq<ExtractedInfo>, after: Seq<ExtractedInfo>) -> bool {
    &&& before.len() <= after.len()
    &&& forall|i: int| 0 <= i < before.len() ==> after[i] == before[i]
}

pub open spec fn opt_view(o: Option<Vec<u8>>) -> Option<Seq<u8>> {
    match o {
        Some(v) => Some(v@),
        None => None,
    }
}

/// An owned copy of a tag list.
fn copy_tags(tags: &[Vec<u8>]) -> (r: Vec<Vec<u8>>)
    ensures
        tags_view(r@) == tags_view(tags@),
{
    let mut out: Vec<Vec<u8>> = Vec::new();
    let mut i: usize = 0;
    while i < tags.len()
        invariant
            i <= tags@.len(),
            out@.len() == i,
            forall|j: int| 0 <= j < i ==> out@[j]@ == tags@[j]@,
        decreases tags@.len() - i,
    {
        out.push(copy_bytes(tags[i].as_slice()));
        i = i + 1;
    }
    assert(tags_view(out@) =~= tags_view(tags@));
    out
}

/// Parses a `Uri` message and, when it holds both an IP and a port, appends
/// one entry for the tags `tags_for_this_uri` to `results`.
pub fn parse_uri_message_proto(
    data: &[u8],
    tags_for_this_uri: &[Vec<u8>],
    results: &mut Vec<ExtractedInfo>,
) -> (r: Result<(), DecodeError>)
    ensures
        match uri_out(data@, tags_view(tags_for_this_uri@), infos_view(old(results)@)) {
            Ok(acc) => r is Ok && infos_view(final(results)@) == acc,
            Err(e) => r == Err::<(), DecodeError>(e) && final(results)@ == old(results)@,
        },
        keeps_prefix(old(results)@, final(results)@),
{
    let mut cur: &[u8] = data;
    let mut ip_opt: Option<Vec<u8>> = None;
    let mut port_opt: Option<i32> = None;
    while cur.len() > 0
        invariant
            uri_fields(data@, None, None) == uri_fields(cur@, opt_view(ip_opt), port_opt),
            results@ == old(results)@,
        decreases cur@.len(),
    {
        proof {
            lemma_consumed(cur@);
        }
        let (field_number, wire_type) = read_tag(&mut cur)?;
        proof {
            lemma_consumed(cur@);
        }
        if field_number == 1 {
            if wire_type != WIRE_TYPE_LENGTH_DELIMITED {
                return Err(DecodeError::WrongWireType);
            }
            let ip_bytes = read_length_delimited(&mut cur)?;
            if !utf8_valid(ip_bytes) {
                return Err(DecodeError::InvalidUtf8);
            }
            ip_opt = Some(copy_bytes(ip_bytes));
        } else if field_number == 2 {
            if wire_type != WIRE_TYPE_VARINT {
                return Err(DecodeError::WrongWireType);
            }
            let port_val = read_varint(&mut cur)?;
            port_opt = Some(port_val as i32);
        } else {
            skip_field(&mut cur, wire_type)?;
        }
    }
    if let Some(ip) = ip_opt {
        if let Some(port) = port_opt {
            let ghost before = infos_view(results@);
            let info = ExtractedInfo { tags: copy_tags(tags_for_this_uri), ip, port };
            results.push(info);
            assert(infos_view(results@) =~= before.push(info@));
                }
    }
    Ok(())
}

// ---- Uri_Slot: int32 internal_port = 1; repeated Uri uri = 2 ----

/// `acc` followed by the entries that the `Uri_Slot` fields `s` yield.
pub open spec fn slot_fields(s: Seq<u8>, tags: Seq<Seq<u8>>, acc: Seq<InfoView>) -> Result<
    Seq<InfoView>,
    DecodeError,
>
    decreases s.len(),
    via slot_fields_decreases
{
    if s.len() == 0 {
        Ok(acc)
    } else {
        match tag_spec(s) {
            Err(e) => Err(e),
            Ok((f, w, n)) => {
                let s1 = s.skip(n as int);
                if f == 1 {
                    if w != 0 {
                        Err(DecodeError::WrongWireType)
                    } else {
                        match skip_spec(s1, w) {
                            Err(e) => Err(e),
                            Ok(m) => slot_fields(s1.skip(m as int), tags, acc),
                        }
                    }
                } else if f == 2 {
                    if w != 2 {
                        Err(DecodeError::WrongWireType)
                    } else {
                        match ld_spec(s1) {
                            Err(e) => Err(e),
                            Ok((d, m)) => match uri_out(d, tags, acc) {
                                Err(e) => Err(e),
                                Ok(acc1) => slot_fields(s1.skip(m as int), tags, acc1),
                            },
                        }
                    }
                } else {
                    match skip_spec(s1, w) {
                        Err(e) => Err(e),
                        Ok(m) => slot_fields(s1.skip(m as int), tags, acc),
                    }
                }
            },
        }
    }
}

#[via_fn]
proof fn slot_fields_decreases(s: Seq<u8>, tags: Seq<Seq<u8>>, acc: Seq<InfoView>) {
    lemma_consumed(s);
    if let Ok((f, w, n)) = tag_spec(s) {
        lemma_consumed(s.skip(n as int));
    }
}

/// Parses a `Uri_Slot` message, appending an entry for each complete `Uri`.
pub fn parse_uri_slot_message_proto(
    data: &[u8],
    tags_for_slot: &[Vec<u8>],
    results: &mut Vec<ExtractedInfo>,
) -> (r: Result<(), DecodeError>)
    ensures
        match slot_fields(data@, tags_view(tags_for_slot@), infos_view(old(results)@)) {
            Ok(acc) => r is Ok && infos_view(final(results)@) == acc,
            Err(e) => r == Err::<(), DecodeError>(e) && final(results)@ == old(results)@,
        },
        keeps_prefix(old(results)@, final(results)@),
{
    let n = results.len();
    let r = slot_into(data, tags_for_slot, results);
    if r.is_err() {
        results.truncate(n);
        assert(results@ =~= old(results)@);
    }
    r
}

fn slot_into(
    data: &[u8],
    tags_for_slot: &[Vec<u8>],
    results: &mut Vec<ExtractedInfo>,
) -> (r: Result<(), DecodeError>)
    ensures
        match slot_fields(data@, tags_view(tags_for_slot@), infos_view(old(results)@)) {
            Ok(acc) => r is Ok && infos_view(final(results)@) == acc,
            Err(e) => r == Err::<(), DecodeError>(e),
        },
        keeps_prefix(old(results)@, final(results)@),
{
    let mut cur: &[u8] = data;
    while cur.len() > 0
        invariant
            slot_fields(data@, tags_view(tags_for_slot@), infos_view(old(results)@))
                == slot_fields(cur@, tags_view(tags_for_slot@), infos_view(results@)),
            keeps_prefix(old(results)@, results@),
        decreases cur@.len(),
    {
        proof {
            lemma_consumed(cur@);
        }
        let (field_number, wire_type) = read_tag(&mut cur)?;
        proof {
            lemma_consumed(cur@);
        }
        if field_number == 1 {
            if wire_type != WIRE_TYPE_VARINT {
                return Err(DecodeError::WrongWireType);
            }
            skip_field(&mut cur, wire_type)?;
        } else if field_number == 2 {
            if wire_type != WIRE_TYPE_LENGTH_DELIMITED {
                return Err(DecodeError::WrongWireType);
            }
            let uri_bytes = read_length_delimited(&mut cur)?;
            let ghost mid = results@;
            parse_uri_message_proto(uri_bytes, tags_for_slot, results)?;
            assert(keeps_prefix(old(results)@, results@));
        } else {
            skip_field(&mut cur, wire_type)?;
        }
    }
    Ok(())
}

// ---- Instance: Api api = 1 (skipped); repeated Uri_Slot uri_slot = 2 ----

/// `acc` followed by the entries that the `Instance` fields `s` yield.
pub open spec fn instance_fields(s: Seq<u8>, tags: Seq<Seq<u8>>, acc: Seq<InfoView>) -> Result<
    Seq<InfoView>,
    DecodeError,
>
    decreases s.len(),
    via instance_fields_decreases
{
    if s.len() == 0 {
        Ok(acc)
    } else {
        match tag_spec(s) {
            Err(e) => Err(e),
            Ok((f, w, n)) => {
                let s1 = s.skip(n as int);
                if f == 2 {
                    if w != 2 {
                        Err(DecodeError::WrongWireType)
                    } else {
                        match ld_spec(s1) {
                            Err(e) => Err(e),
                            Ok((d, m)) => match slot_fields(d, tags, acc) {
                                Err(e) => Err(e),
                                Ok(acc1) => instance_fields(s1.skip(m as int), tags, acc1),
                            },
                        }
                    }
                } else {
                    match skip_spec(s1, w) {
                        Err(e) => Err(e),
                        Ok(m) => instance_fields(s1.skip(m as int), tags, acc),
                    }
                }
            },
        }
    }
}

#[via_fn]
proof fn instance_fields_decreases(s: Seq<u8>, tags: Seq<Seq<u8>>, acc: Seq<InfoView>) {
    lemma_consumed(s);
    if let Ok((f, w, n)) = tag_spec(s) {
        lemma_consumed(s.skip(n as int));
    }
}

/// Parses an `Instance` message, appending the entries of each `Uri_Slot`.
pub fn parse_instance_message_proto(
    data: &[u8],
    tags_for_instance: &[Vec<u8>],
    results: &mut Vec<ExtractedInfo>,
) -> (r: Result<(), DecodeError>)
    ensures
        match instance_fields(data@, tags_view(tags_for_instance@), infos_view(old(results)@)) {
            Ok(acc) => r is Ok && infos_view(final(results)@) == acc,
            Err(e) => r == Err::<(), DecodeError>(e) && final(results)@ == old(results)@,
        },
        keeps_prefix(old(results)@, final(results)@),
{
    let n = results.len();
    let r = instance_into(data, tags_for_instance, results);
    if r.is_err() {
        results.truncate(n);
        assert(results@ =~= old(results)@);
    }
    r
}

fn instance_into(
    data: &[u8],
    tags_for_instance: &[Vec<u8>],
    results: &mut Vec<ExtractedInfo>,
) -> (r: Result<(), DecodeError>)
    ensures
        match instance_fields(data@, tags_view(tags_for_instance@), infos_view(old(results)@)) {
            Ok(acc) => r is Ok && infos_view(final(results)@) == acc,
            Err(e) => r == Err::<(), DecodeError>(e),
        },
        keeps_prefix(old(results)@, final(results)@),
{
    let mut cur: &[u8] = data;
    while cur.len() > 0
        invariant
            instance_fields(data@, tags_view(tags_for_instance@), infos_view(old(results)@))
                == instance_fields(cur@, tags_view(tags_for_instance@), infos_view(results@)),
            keeps_prefix(old(results)@, results@),
        decreases cur@.len(),
    {
        proof {
            lemma_consumed(cur@);
        }
        let (field_number, wire_type) = read_tag(&mut cur)?;
        proof {
            lemma_consumed(cur@);
        }
        if field_number == 2 {
            if wire_type != WIRE_TYPE_LENGTH_DELIMITED {
                return Err(DecodeError::WrongWireType);
            }
            let slot_bytes = read_length_delimited(&mut cur)?;
            let ghost mid = results@;
            parse_uri_slot_message_proto(slot_bytes, tags_for_instance, results)?;
            assert(keeps_prefix(old(results)@, results@));
        } else {
            skip_field(&mut cur, wire_type)?;
        }
    }
    Ok(())
}

// ---- NetworkResolution: repeated string tags = 1; Instance network_client = 2 ----

/// The tags and the last `network_client` body in the fields `s`, starting
/// from `tags` and `client`.
pub open spec fn resolution_fields(s: Seq<u8>, tags: Seq<Seq<u8>>, client: Option<Seq<u8>>) -> Result<
    (Seq<Seq<u8>>, Option<Seq<u8>>),
    DecodeError,
>
    decreases s.len(),
    via resolution_fields_decreases
{
    if s.len() == 0 {
        Ok((tags, client))
    } else {
        match tag_spec(s) {
            Err(e) => Err(e),
            Ok((f, w, n)) => {
                let s1 = s.skip(n as int);
                if f == 1 || f == 2 {
                    if w != 2 {
                        Err(DecodeError::WrongWireType)
                    } else {
                        match ld_spec(s1) {
                            Err(e) => Err(e),
                            Ok((d, m)) => if f == 2 {
                                resolution_fields(s1.skip(m as int), tags, Some(d))
                            } else if !is_utf8(d) {
                                Err(DecodeError::InvalidUtf8)
                            } else {
                                resolution_fields(s1.skip(m as int), tags.push(d), client)
                            },
                        }
                    }
                } else {
                    match skip_spec(s1, w) {
                        Err(e) => Err(e),
                        Ok(m) => resolution_fields(s1.skip(m as int), tags, client),
                    }
                }
            },
        }
    }
}

#[via_fn]
proof fn resolution_fields_decreases(s: Seq<u8>, tags: Seq<Seq<u8>>, client: Option<Seq<u8>>) {
    lemma_consumed(s);
    if let Ok((f, w, n)) = tag_spec(s) {
        lemma_consumed(s.skip(n as int));
    }
}

/// `acc` followed by the entries of a `NetworkResolution` message `s`: those
/// of its `network_client`, for its tags, when it has both.
pub open spec fn resolution_out(s: Seq<u8>, acc: Seq<InfoView>) -> Result<Seq<InfoView>, DecodeError> {
    match resolution_fields(s, seq![], None) {
        Err(e) => Err(e),
        Ok((tags, client)) => match client {
            Some(c) => if tags.len() > 0 {
                instance_fields(c, tags, acc)
            } else {
                Ok(acc)
            },
            None => Ok(acc),
        },
    }
}

/// Parses a `NetworkResolution` message, appending the entries of its
/// `network_client` for its tags; one without tags adds nothing.
pub fn parse_network_resolution_message_proto(
    data: &[u8],
    results: &mut Vec<ExtractedInfo>,
) -> (r: Result<(), DecodeError>)
    ensures
        match resolution_out(data@, infos_view(old(results)@)) {
            Ok(acc) => r is Ok && infos_view(final(results)@) == acc,
            Err(e) => r == Err::<(), DecodeError>(e) && final(results)@ == old(results)@,
        },
        keeps_prefix(old(results)@, final(results)@),
{
    let n = results.len();
    let r = resolution_into(data, results);
    if r.is_err() {
        results.truncate(n);
        assert(results@ =~= old(results)@);
    }
    r
}

fn resolution_into(
    data: &[u8],
    results: &mut Vec<ExtractedInfo>,
) -> (r: Result<(), DecodeError>)
    ensures
        match resolution_out(data@, infos_view(old(results)@)) {
            Ok(acc) => r is Ok && infos_view(final(results)@) == acc,
            Err(e) => r == Err::<(), DecodeError>(e),
        },
        keeps_prefix(old(results)@, final(results)@),
{
    let mut cur: &[u8] = data;
    let mut tags: Vec<Vec<u8>> = Vec::new();
    let mut client: Option<&[u8]> = None;
    assert(tags_view(tags@) =~= seq![]);
    while cur.len() > 0
        invariant
            resolution_fields(data@, seq![], None) == resolution_fields(
                cur@,
                tags_view(tags@),
                match client {
                    Some(c) => Some(c@),
                    None => None,
                },
            ),
            results@ == old(results)@,
        decreases cur@.len(),
    {
        proof {
            lemma_consumed(cur@);
        }
        let (field_number, wire_type) = read_tag(&mut cur)?;
        proof {
            lemma_consumed(cur@);
        }
        if field_number == 1 {
            if wire_type != WIRE_TYPE_LENGTH_DELIMITED {
                return Err(DecodeError::WrongWireType);
            }
            let tag_bytes = read_length_delimited(&mut cur)?;
            if !utf8_valid(tag_bytes) {
                return Err(DecodeError::InvalidUtf8);
            }
            let ghost before = tags@;
            tags.push(copy_bytes(tag_bytes));
            assert(tags_view(tags@) =~= tags_view(before).push(tag_bytes@));
        } else if field_number == 2 {
            if wire_type != WIRE_TYPE_LENGTH_DELIMITED {
                return Err(DecodeError::WrongWireType);
            }
            client = Some(read_length_delimited(&mut cur)?);
        } else {
            skip_field(&mut cur, wire_type)?;
        }
    }
    if let Some(client_bytes) = client {
        if tags.len() > 0 {
            parse_instance_message_proto(client_bytes, tags.as_slice(), results)?;
        }
    }
    Ok(())
}

// ---- ConfigurationFile: repeated NetworkResolution network_resolution = 3 ----

/// `acc` followed by the entries of the `ConfigurationFile` fields `s`.
pub open spec fn config_fields(s: Seq<u8>, acc: Seq<InfoView>) -> Result<Seq<InfoView>, DecodeError>
    decreases s.len(),
    via config_fields_decreases
{
    if s.len() == 0 {
        Ok(acc)
    } else {
        match tag_spec(s) {
            Err(e) => Err(e),
            Ok((f, w, n)) => {
                let s1 = s.skip(n as int);
                if f == 3 {
                    if w != 2 {
                        Err(DecodeError::WrongWireType)
                    } else {
                        match ld_spec(s1) {
                            Err(e) => Err(e),
                            Ok((d, m)) => match resolution_out(d, acc) {
                                Err(e) => Err(e),
                                Ok(acc1) => config_fields(s1.skip(m as int), acc1),
                            },
                        }
                    }
                } else {
                    match skip_spec(s1, w) {
                        Err(e) => Err(e),
                        Ok(m) => config_fields(s1.skip(m as int), acc),
                    }
                }
            },
        }
    }
}

#[via_fn]
proof fn config_fields_decreases(s: Seq<u8>, acc: Seq<InfoView>) {
    lemma_consumed(s);
    if let Ok((f, w, n)) = tag_spec(s) {
        lemma_consumed(s.skip(n as int));
    }
}

/// The entries of a whole configuration file.
pub open spec fn config_spec(s: Seq<u8>) -> Result<Seq<InfoView>, DecodeError> {
    config_fields(s, seq![])
}

/// Parses a configuration file into the list of served addresses, in the
/// order in which their `Uri` messages appear.
pub fn parse_configuration_file_proto(data: &[u8]) -> (r: Result<Vec<ExtractedInfo>, DecodeError>)
    ensures
        match config_spec(data@) {
            Ok(v) => r matches Ok(x) && infos_view(x@) == v,
            Err(e) => r matches Err(x) && x == e,
        },
{
    let mut results: Vec<ExtractedInfo> = Vec::new();
    let mut cur: &[u8] = data;
    assert(infos_view(results@) =~= seq![]);
    while cur.len() > 0
        invariant
            config_spec(data@) == config_fields(cur@, infos_view(results@)),
        decreases cur@.len(),
    {
        proof {
            lemma_consumed(cur@);
        }
        let (field_number, wire_type) = read_tag(&mut cur)?;
        proof {
            lemma_consumed(cur@);
        }
        if field_number == 3 {
            if wire_type != WIRE_TYPE_LENGTH_DELIMITED {
                return Err(DecodeError::WrongWireType);
            }
            let resolution_bytes = read_length_delimited(&mut cur)?;
            parse_network_resolution_message_proto(resolution_bytes, &mut results)?;
        } else {
            skip_field(&mut cur, wire_type)?;
        }
    }
    Ok(results)
}

/// A well-formed `Uri` message adds exactly one entry, carrying its IP, its
/// port and the inherited tags, when it has both an IP and a port, and no
/// entry when it lacks either.
pub proof fn lemma_uri_entry_count(s: Seq<u8>, tags: Seq<Seq<u8>>, acc: Seq<InfoView>)
    requires
        uri_fields(s, None, None) is Ok,
    ensures
        ({
            let (ip, port) = uri_fields(s, None, None)->Ok_0;
            let out = uri_out(s, tags, acc)->Ok_0;
            &&& uri_out(s, tags, acc) is Ok
            &&& out.take(acc.len() as int) == acc
            &&& (ip is Some && port is Some) ==> out.len() == acc.len() + 1 && out.last() == InfoView {
                tags,
                ip: ip->Some_0,
                port: port->Some_0,
            }
            &&& !(ip is Some && port is Some) ==> out.len() == acc.len()
        }),
{
    let out = uri_out(s, tags, acc)->Ok_0;
    assert(out.take(acc.len() as int) =~= acc);
}

// ---- how many complete `Uri` messages a walk reaches ----

/// One when the `Uri` message `s` carries both an IP and a port, else zero.
pub open spec fn uri_complete(s: Seq<u8>) -> nat {
    match uri_fields(s, None, None) {
        Ok((Some(_), Some(_))) => 1,
        _ => 0,
    }
}

/// Complete `Uri` messages in the `uri` fields of the `Uri_Slot` fields `s`.
pub open spec fn slot_uris(s: Seq<u8>) -> nat
    decreases s.len(),
    via slot_uris_decreases
{
    if s.len() == 0 {
        0
    } else {
        match tag_spec(s) {
            Err(_) => 0,
            Ok((f, w, n)) => {
                let s1 = s.skip(n as int);
                if f == 2 && w == 2 {
                    match ld_spec(s1) {
                        Err(_) => 0,
                        Ok((d, m)) => uri_complete(d) + slot_uris(s1.skip(m as int)),
                    }
                } else {
                    match skip_spec(s1, w) {
                        Err(_) => 0,
                        Ok(m) => slot_uris(s1.skip(m as int)),
                    }
                }
            },
        }
    }
}

#[via_fn]
proof fn slot_uris_decreases(s: Seq<u8>) {
    lemma_consumed(s);
    if let Ok((f, w, n)) = tag_spec(s) {
        lemma_consumed(s.skip(n as int));
    }
}

/// Complete `Uri` messages in the `uri_slot` fields of the `Instance` fields `s`.
pub open spec fn instance_uris(s: Seq<u8>) -> nat
    decreases s.len(),
    via instance_uris_decreases
{
    if s.len() == 0 {
        0
    } else {
        match tag_spec(s) {
            Err(_) => 0,
            Ok((f, w, n)) => {
                let s1 = s.skip(n as int);
                if f == 2 && w == 2 {
                    match ld_spec(s1) {
                        Err(_) => 0,
                        Ok((d, m)) => slot_uris(d) + instance_uris(s1.skip(m as int)),
                    }
                } else {
                    match skip_spec(s1, w) {
                        Err(_) => 0,
                        Ok(m) => instance_uris(s1.skip(m as int)),
                    }
                }
            },
        }
    }
}

#[via_fn]
proof fn instance_uris_decreases(s: Seq<u8>) {
    lemma_consumed(s);
    if let Ok((f, w, n)) = tag_spec(s) {
        lemma_consumed(s.skip(n as int));
    }
}

/// Complete `Uri` messages under a `NetworkResolution` that has tags: those
/// of its last `network_client`.
pub open spec fn resolution_uris(s: Seq<u8>) -> nat {
    match resolution_fields(s, seq![], None) {
        Ok((tags, Some(c))) => if tags.len() > 0 {
            instance_uris(c)
        } else {
            0
        },
        _ => 0,
    }
}

/// Complete `Uri` messages under the `network_resolution` fields of a
/// configuration file.
pub open spec fn config_uris(s: Seq<u8>) -> nat
    decreases s.len(),
    via config_uris_decreases
{
    if s.len() == 0 {
        0
    } else {
        match tag_spec(s) {
            Err(_) => 0,
            Ok((f, w, n)) => {
                let s1 = s.skip(n as int);
                if f == 3 && w == 2 {
                    match ld_spec(s1) {
                        Err(_) => 0,
                        Ok((d, m)) => resolution_uris(d) + config_uris(s1.skip(m as int)),
                    }
                } else {
                    match skip_spec(s1, w) {
                        Err(_) => 0,
                        Ok(m) => config_uris(s1.skip(m as int)),
                    }
                }
            },
        }
    }
}

#[via_fn]
proof fn config_uris_decreases(s: Seq<u8>) {
    lemma_consumed(s);
    if let Ok((f, w, n)) = tag_spec(s) {
        lemma_consumed(s.skip(n as int));
    }
}

proof fn lemma_slot_count(s: Seq<u8>, tags: Seq<Seq<u8>>, acc: Seq<InfoView>)
    ensures
        slot_fields(s, tags, acc) matches Ok(out) ==> out.len() == acc.len() + slot_uris(s),
    decreases s.len(),
{
    lemma_consumed(s);
    if s.len() > 0 {
        if let Ok((f, w, n)) = tag_spec(s) {
            let s1 = s.skip(n as int);
            lemma_consumed(s1);
            if f == 2 && w == 2 {
                if let Ok((d, m)) = ld_spec(s1) {
                    if let Ok(acc1) = uri_out(d, tags, acc) {
                        lemma_slot_count(s1.skip(m as int), tags, acc1);
                    }
                }
            } else if f != 2 {
                if let Ok(m) = skip_spec(s1, w) {
                    lemma_slot_count(s1.skip(m as int), tags, acc);
                }
            }
        }
    }
}

proof fn lemma_instance_count(s: Seq<u8>, tags: Seq<Seq<u8>>, acc: Seq<InfoView>)
    ensures
        instance_fields(s, tags, acc) matches Ok(out) ==> out.len() == acc.len() + instance_uris(s),
    decreases s.len(),
{
    lemma_consumed(s);
    if s.len() > 0 {
        if let Ok((f, w, n)) = tag_spec(s) {
            let s1 = s.skip(n as int);
            lemma_consumed(s1);
            if f == 2 && w == 2 {
                if let Ok((d, m)) = ld_spec(s1) {
                    lemma_slot_count(d, tags, acc);
                    if let Ok(acc1) = slot_fields(d, tags, acc) {
                        lemma_instance_count(s1.skip(m as int), tags, acc1);
                    }
                }
            } else if f != 2 {
                if let Ok(m) = skip_spec(s1, w) {
                    lemma_instance_count(s1.skip(m as int), tags, acc);
                }
            }
        }
    }
}

proof fn lemma_config_count(s: Seq<u8>, acc: Seq<InfoView>)
    ensures
        config_fields(s, acc) matches Ok(out) ==> out.len() == acc.len() + config_uris(s),
    decreases s.len(),
{
    lemma_consumed(s);
    if s.len() > 0 {
        if let Ok((f, w, n)) = tag_spec(s) {
            let s1 = s.skip(n as int);
            lemma_consumed(s1);
            if f == 3 && w == 2 {
                if let Ok((d, m)) = ld_spec(s1) {
                    if let Ok((tags, client)) = resolution_fields(d, seq![], None) {
                        if let Some(c) = client {
                            lemma_instance_count(c, tags, acc);
                        }
                    }
                    if let Ok(acc1) = resolution_out(d, acc) {
                        lemma_config_count(s1.skip(m as int), acc1);
                    }
                }
            } else if f != 3 {
                if let Ok(m) = skip_spec(s1, w) {
                    lemma_config_count(s1.skip(m as int), acc);
                }
            }
        }
    }
}

/// A configuration file that parses yields exactly one entry for each `Uri`
/// message that carries both an IP and a port, counted over the `uri` fields
/// of the `uri_slot` fields of the last `network_client` of each
/// `network_resolution` that has at least one tag; a `Uri` that lacks either
/// yields none.
pub proof fn lemma_config_entry_count(s: Seq<u8>)
    ensures
        config_spec(s) matches Ok(v) ==> v.len() == config_uris(s),
{
    lemma_config_count(s, seq![]);
}

} // verus!
