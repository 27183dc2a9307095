//! Configuration: where the state file lives.
//!
//! The configuration file holds one object: `{ "state_file": "<path>" }`.
//! As with the state file, the caller moves the bytes; reading them into a
//! configuration and writing a configuration out are verified here.

use vstd::prelude::*;
use vstd::utf8::{encode_utf8, valid_utf8};

use crate::backend::obj_find;
use crate::json::{clone_bytes, enc, parse_document, sp_doc, Json, JVal};
use crate::state::jobj_get;

verus! {

/// The configuration: the path of the state file.
#[derive(Debug, PartialEq, Eq)]
pub struct Config {
    pub state_file: String,
}

/// Why the configuration could not be loaded.
#[derive(Debug, Clone, Copy, PartialEq, Eq, Structural)]
pub enum CfgErr {
    /// The file could not be read.
    FailToLoad,
    /// The file's content is not a configuration.
    Invalid,
}

impl CfgErr {
    /// A short account of the failure, for the operator.
    pub fn message(&self) -> (r: String)
        ensures
            *self == CfgErr::FailToLoad ==> r@ == "failed to load configuration"@,
            *self == CfgErr::Invalid ==> r@ == "configuration format is invalid"@,
    {
        match self {
            CfgErr::FailToLoad => "failed to load configuration".to_owned(),
            CfgErr::Invalid => "configuration format is invalid".to_owned(),
        }
    }
}

pub open spec fn k_state_file() -> Seq<u8> {
    seq![115u8, 116u8, 97u8, 116u8, 101u8, 95u8, 102u8, 105u8, 108u8, 101u8]
}

/// How a configuration stands in its file, given the path's bytes.
pub open spec fn cfg_jval(p: Seq<u8>) -> JVal {
    JVal::Obj(seq![(k_state_file(), JVal::Str(p))])
}

/// The path bytes a value carries, if it has the expected shape.
pub open spec fn cfg_of_jval(j: JVal) -> Option<Seq<u8>> {
    match j {
        JVal::Obj(ps) => if ps.len() == 1 {
            match jobj_get(ps, k_state_file()) {
                Some(JVal::Str(p)) => Some(p),
                _ => None,
            }
        } else {
            None
        },
        _ => None,
    }
}

/// The bytes a configuration is saved as.
pub open spec fn enc_cfg(p: Seq<u8>) -> Seq<u8> {
    enc(cfg_jval(p))
}

/// The path bytes some saved bytes hold, if they hold a configuration.
pub open spec fn dec_cfg(b: Seq<u8>) -> Option<Seq<u8>> {
    match sp_doc(b) {
        Some(j) => cfg_of_jval(j),
        None => None,
    }
}

/// Law: a configuration round-trips through saving and loading: decoding
/// what was encoded yields the same path.
pub proof fn lemma_cfg_round_trip(p: Seq<u8>)
    ensures
        dec_cfg(enc_cfg(p)) == Some(p),
{
    broadcast use vstd::seq_lib::group_seq_properties;

    reveal_with_fuel(crate::json::wf_jmembers, 3);
    let ps = seq![(k_state_file(), JVal::Str(p))];
    assert(ps.drop_first() =~= Seq::<(Seq<u8>, JVal)>::empty());
    assert(crate::json::wf_jmembers(ps));
    assert(crate::json::wf_jval(cfg_jval(p)));
    crate::json::lemma_enc_doc(cfg_jval(p));
    assert(jobj_get(ps, k_state_file()) == Some(JVal::Str(p)));
}

fn key_state_file() -> (r: Vec<u8>)
    ensures
        r@ == k_state_file(),
{
    let r = vec![115u8, 116u8, 97u8, 116u8, 101u8, 95u8, 102u8, 105u8, 108u8, 101u8];
    proof {
        assert(r@ =~= k_state_file());
    }
    r
}

/// Relies on `String::from_utf8`: it yields text exactly when the bytes
/// are valid UTF-8, and the text's bytes are the input.
#[verifier::external_body]
fn utf8_string(b: Vec<u8>) -> (r: Option<String>)
    ensures
        r matches Some(s) ==> encode_utf8(s@) == b@,
        r is Some <==> valid_utf8(b@),
{
    match String::from_utf8(b) {
        Ok(s) => Some(s),
        Err(_) => None,
    }
}

impl Config {
    /// A configuration read back from the file's bytes, where the caller
    /// could read them at all. A file that cannot be read cannot be loaded;
    /// content that is not a configuration object with a textual path is
    /// invalid.
    pub fn load(content: Option<Vec<u8>>) -> (r: Result<Config, CfgErr>)
        ensures
            content is None ==> r == Err::<Config, CfgErr>(CfgErr::FailToLoad),
            content matches Some(b) ==> ({
                &&& dec_cfg(b@) is None ==> r == Err::<Config, CfgErr>(CfgErr::Invalid)
                &&& dec_cfg(b@) matches Some(p) ==> ({
                    &&& valid_utf8(p) ==> (r matches Ok(c) && encode_utf8(c.state_file@) == p)
                    &&& !valid_utf8(p) ==> r == Err::<Config, CfgErr>(CfgErr::Invalid)
                })
            }),
    {
        match content {
            None => Err(CfgErr::FailToLoad),
            Some(b) => match parse_document(b.as_slice()) {
                None => Err(CfgErr::Invalid),
                Some(j) => match &j {
                    Json::Obj(ps) => {
                        proof {
                            crate::json::lemma_model_members(ps@);
                        }
                        if ps.len() != 1 {
                            return Err(CfgErr::Invalid);
                        }
                        let key = key_state_file();
                        match obj_find(ps, &key) {
                            Some(i) => match &ps[i].1 {
                                Json::Str(pb) => match utf8_string(clone_bytes(pb)) {
                                    Some(s) => Ok(Config { state_file: s }),
                                    None => Err(CfgErr::Invalid),
                                },
                                _ => Err(CfgErr::Invalid),
                            },
                            None => Err(CfgErr::Invalid),
                        }
                    },
                    _ => Err(CfgErr::Invalid),
                },
            },
        }
    }

    /// The bytes this configuration is saved as.
    pub fn save(&self) -> (r: Vec<u8>)
        ensures
            r@ == enc_cfg(encode_utf8(self.state_file@)),
    {
        let sb = self.state_file.as_str().as_bytes();
        let pb = vstd::slice::slice_to_vec(sb);
        let mut ps: Vec<(Vec<u8>, Json)> = Vec::new();
        ps.push((key_state_file(), Json::Str(pb)));
        proof {
            crate::json::lemma_model_members(ps@);
            assert(crate::json::model_members(ps@) =~= seq![
                (k_state_file(), JVal::Str(encode_utf8(self.state_file@))),
            ]);
        }
        let j = Json::Obj(ps);
        crate::json::encode_value(&j)
    }
}

impl Default for Config {
    /// The configuration used when none is given: the state file beside
    /// the working directory.
    fn default() -> (r: Config)
        ensures
            r.state_file@ == ".state.json"@,
    {
        Config { state_file: ".state.json".to_owned() }
    }
}

} // verus!
