//! The schema registry: message definitions keyed by message type, with a
//! derived lookup for business-ID extensions.

use std::collections::HashMap;
use vstd::prelude::*;

use super::types::{BaseFieldDef, BizExtension, MessageConfig, MessageDef};

verus! {

broadcast use vstd::std_specs::hash::group_hash_axioms;

/// What an extension contributes to the wire: its business ID and its
/// ordered field list.
pub type ExtView = (u32, Seq<BaseFieldDef>);

pub open spec fn ext_view(e: BizExtension) -> ExtView {
    (e.biz_id, e.fields@)
}

/// View of one message type's extension table.
pub open spec fn exts_view(m: Map<u32, BizExtension>) -> Map<u32, ExtView> {
    m.map_values(|e: BizExtension| ext_view(e))
}

/// Holds loaded message definitions for O(1) lookup by message type and by
/// (message type, business ID). Built once by [`ConfigManager::load_config`]
/// and read-only during codec operation.
pub struct ConfigManager {
    messages: HashMap<u32, MessageDef>,
    extensions: HashMap<u32, HashMap<u32, BizExtension>>,
}

/// The message map after loading `msgs` in order on top of `m0`; a repeated
/// message type overwrites the earlier definition (last wins).
pub open spec fn spec_load_messages(
    m0: Map<u32, MessageDef>,
    msgs: Seq<MessageDef>,
) -> Map<u32, MessageDef>
    decreases msgs.len(),
{
    if msgs.len() == 0 {
        m0
    } else {
        spec_load_messages(m0.insert(msgs[0].msg_type, msgs[0]), msgs.drop_first())
    }
}

/// One message's extension lookup after registering its declared extensions
/// in order on top of `e0`; a repeated business ID overwrites (last wins).
pub open spec fn spec_load_extensions(
    e0: Map<u32, ExtView>,
    exts: Seq<BizExtension>,
) -> Map<u32, ExtView>
    decreases exts.len(),
{
    if exts.len() == 0 {
        e0
    } else {
        spec_load_extensions(e0.insert(exts[0].biz_id, ext_view(exts[0])), exts.drop_first())
    }
}

/// The derived extension lookup after loading `msgs` in order on top of
/// `x0`: each message installs the lookup built from its own declared
/// extensions alone, so a repeated message type replaces the whole table
/// registered for it (the lookup stays derived from the surviving
/// definition; last wins).
pub open spec fn spec_load_ext_maps(
    x0: Map<u32, Map<u32, ExtView>>,
    msgs: Seq<MessageDef>,
) -> Map<u32, Map<u32, ExtView>>
    decreases msgs.len(),
{
    if msgs.len() == 0 {
        x0
    } else {
        spec_load_ext_maps(
            x0.insert(
                msgs[0].msg_type,
                spec_load_extensions(Map::empty(), msgs[0].extensions@),
            ),
            msgs.drop_first(),
        )
    }
}

impl ConfigManager {
    /// The loaded message definitions, keyed by message type.
    pub closed spec fn msg_defs(self) -> Map<u32, MessageDef> {
        self.messages@
    }

    /// The derived extension lookup, keyed by message type then business ID.
    pub closed spec fn ext_maps(self) -> Map<u32, Map<u32, ExtView>> {
        self.extensions@.map_values(|hm: HashMap<u32, BizExtension>| exts_view(hm@))
    }

    /// The extension registered for `(msg_type, biz_id)`, if any.
    pub open spec fn spec_extension(self, msg_type: u32, biz_id: u32) -> Option<ExtView> {
        if self.ext_maps().contains_key(msg_type) && self.ext_maps()[msg_type].contains_key(
            biz_id,
        ) {
            Some(self.ext_maps()[msg_type][biz_id])
        } else {
            None
        }
    }

    pub fn new() -> (r: Self)
        ensures
            r.msg_defs() == Map::<u32, MessageDef>::empty(),
            r.ext_maps() == Map::<u32, Map<u32, ExtView>>::empty(),
    {
        let r = Self { messages: HashMap::new(), extensions: HashMap::new() };
        proof {
            assert(r.msg_defs() =~= Map::<u32, MessageDef>::empty());
            assert(r.ext_maps() =~= Map::<u32, Map<u32, ExtView>>::empty());
        }
        r
    }

    /// Loads every definition of `config`, in order, into the registry.
    /// A message type seen again overwrites its earlier definition, and its
    /// extension table with it: afterwards only the surviving definition's
    /// extensions are found.
    pub fn load_config(&mut self, config: MessageConfig) -> (r: Result<
        (),
        crate::util::ConfigError,
    >)
        ensures
            r is Ok,
            final(self).msg_defs() == spec_load_messages(old(self).msg_defs(), config.messages@),
            final(self).ext_maps() == spec_load_ext_maps(old(self).ext_maps(), config.messages@),
    {
        let mut msgs = config.messages;
        let ghost all = msgs@;
        let ghost m0 = self.msg_defs();
        let ghost x0 = self.ext_maps();
        while msgs.len() > 0
            invariant
                spec_load_messages(m0, all) == spec_load_messages(self.msg_defs(), msgs@),
                spec_load_ext_maps(x0, all) == spec_load_ext_maps(self.ext_maps(), msgs@),
            decreases msgs.len(),
        {
            let ghost before = msgs@;
            let message = msgs.remove(0);
            proof {
                assert(msgs@ =~= before.drop_first());
            }
            self.load_one(message);
        }
        Ok(())
    }

    /// Registers one message definition and its extensions.
    fn load_one(&mut self, message: MessageDef)
        ensures
            final(self).msg_defs() == old(self).msg_defs().insert(message.msg_type, message),
            final(self).ext_maps() == old(self).ext_maps().insert(
                message.msg_type,
                spec_load_extensions(Map::empty(), message.extensions@),
            ),
    {
        let msg_type = message.msg_type;
        let mut inner: HashMap<u32, BizExtension> = HashMap::new();
        let ghost inner0 = exts_view(inner@);
        proof {
            assert(inner0 =~= Map::<u32, ExtView>::empty());
        }
        let n = message.extensions.len();
        proof {
            assert(message.extensions@.skip(0) =~= message.extensions@);
        }
        let mut i: usize = 0;
        while i < n
            invariant
                n == message.extensions.len(),
                i <= n,
                spec_load_extensions(inner0, message.extensions@) == spec_load_extensions(
                    exts_view(inner@),
                    message.extensions@.skip(i as int),
                ),
            decreases n - i,
        {
            let ghost cur = exts_view(inner@);
            let ghost rest = message.extensions@.skip(i as int);
            let ext = message.extensions[i].clone();
            inner.insert(ext.biz_id, ext);
            proof {
                assert(exts_view(inner@) =~= cur.insert(rest[0].biz_id, ext_view(rest[0])));
                assert(message.extensions@.skip(i + 1) =~= rest.drop_first());
            }
            i = i + 1;
        }
        proof {
            assert(message.extensions@.skip(n as int) =~= Seq::<BizExtension>::empty());
            assert(spec_load_extensions(inner0, message.extensions@) == exts_view(inner@));
        }
        let ghost pre_insert = *self;
        let ghost innerv = exts_view(inner@);
        self.extensions.insert(msg_type, inner);
        self.messages.insert(message.msg_type, message);
        proof {
            assert(self.ext_maps() =~= pre_insert.ext_maps().insert(msg_type, innerv));
            assert(self.ext_maps() =~= old(self).ext_maps().insert(msg_type, innerv));
            assert(self.msg_defs() =~= old(self).msg_defs().insert(message.msg_type, message));
        }
    }

    /// The definition loaded for `msg_type`, if any.
    pub fn get_message_def(&self, msg_type: u32) -> (r: Option<&MessageDef>)
        ensures
            (r is Some) == self.msg_defs().contains_key(msg_type),
            r matches Some(d) ==> *d == self.msg_defs()[msg_type],
    {
        self.messages.get(&msg_type)
    }

    /// The extension loaded for `(msg_type, biz_id)`, if any.
    pub fn get_extension(&self, msg_type: u32, biz_id: u32) -> (r: Option<&BizExtension>)
        ensures
            (r is Some) == (self.spec_extension(msg_type, biz_id) is Some),
            r matches Some(e) ==> Some(ext_view(*e)) == self.spec_extension(msg_type, biz_id),
    {
        match self.extensions.get(&msg_type) {
            Some(inner) => inner.get(&biz_id),
            None => None,
        }
    }
}

} // verus!
