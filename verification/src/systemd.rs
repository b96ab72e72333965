//! What `systemctl show` says of a unit.

use vstd::prelude::*;
use crate::command::CommandOutput;
use crate::effective::pairs;
use crate::find::{find_char, first_of, lemma_first_of};
use crate::split::{lines, lines_of};
use crate::text::{chars, same, view_of, views};

verus! {

/// Rich systemd metadata from `systemctl show`
#[derive(Debug, Clone)]
pub struct SystemdMetadata {
    pub unit_name: String,
    pub description: Option<String>,
    /// active, inactive, failed
    pub active_state: String,
    /// running, dead, exited
    pub sub_state: String,
    pub exec_start: Option<String>,
    pub restart_policy: Option<String>,
}

/// The property on a `KEY=VALUE` line.
pub open spec fn property_in(line: Seq<char>) -> Option<(Seq<char>, Seq<char>)> {
    let i = first_of(line, '=', 0);
    if i < line.len() {
        Some((line.take(i), line.skip(i + 1)))
    } else {
        None
    }
}

/// The properties that the lines hold. Of a key that repeats, the last value
/// counts.
pub open spec fn properties_in(ls: Seq<Seq<char>>) -> Map<Seq<char>, Seq<char>>
    decreases ls.len(),
{
    if ls.len() == 0 {
        Map::empty()
    } else {
        let before = properties_in(ls.drop_last());
        match property_in(ls.last()) {
            Some((key, value)) => before.insert(key, value),
            None => before,
        }
    }
}

/// The properties that pairs stand for.
pub open spec fn as_map(list: Seq<(Seq<char>, Seq<char>)>) -> Map<Seq<char>, Seq<char>>
    decreases list.len(),
{
    if list.len() == 0 {
        Map::empty()
    } else {
        as_map(list.drop_last()).insert(list.last().0, list.last().1)
    }
}

/// A property, if it is there.
pub open spec fn property(
    props: Map<Seq<char>, Seq<char>>,
    key: Seq<char>,
) -> Option<Seq<char>> {
    if props.contains_key(key) {
        Some(props[key])
    } else {
        None
    }
}

/// Parse systemctl show output (KEY=VALUE format)
pub fn parse_systemctl_output(output: &str) -> (r: Vec<(String, String)>)
    ensures
        as_map(pairs(r@)) == properties_in(lines_of(output@)),
{
    let ls: Vec<String> = lines(output);
    let ghost all = views(ls@);
    let mut props: Vec<(String, String)> = Vec::new();
    let mut i: usize = 0;
    while i < ls.len()
        invariant
            all == views(ls@),
            i <= ls@.len(),
            as_map(pairs(props@)) == properties_in(all.take(i as int)),
        decreases ls@.len() - i,
    {
        let ghost before = pairs(props@);
        let line: &str = ls[i].as_str();
        proof {
            assert(all.take(i + 1).drop_last() =~= all.take(i as int));
            assert(all.take(i + 1).last() == line@);
            lemma_first_of(line@, '=', 0);
        }
        let cs: Vec<char> = chars(line);
        match find_char(cs.as_slice(), '=') {
            Some(at) => {
                let n: usize = cs.len();
                let key: String = line.substring_char(0, at).to_owned();
                let value: String = line.substring_char(at + 1, n).to_owned();
                props.push((key, value));
                proof {
                    assert(key@ =~= line@.take(at as int));
                    assert(value@ =~= line@.skip(at + 1));
                    assert(pairs(props@) =~= before.push((key@, value@)));
                    assert(pairs(props@).drop_last() =~= before);
                }
            },
            None => {},
        }
        i += 1;
    }
    assert(all.take(i as int) =~= all);
    props
}

/// The value that counts for `key`.
fn last_value(props: &[(String, String)], key: &str) -> (r: Option<String>)
    ensures
        view_of(r) == property(as_map(pairs(props@)), key@),
{
    let ghost ps = pairs(props@);
    let mut i: usize = props.len();
    assert(ps.take(i as int) =~= ps);
    while i > 0
        invariant
            ps == pairs(props@),
            i <= props@.len(),
            property(as_map(ps), key@) == property(as_map(ps.take(i as int)), key@),
        decreases i,
    {
        proof {
            assert(ps.take(i as int).drop_last() =~= ps.take(i - 1));
            assert(ps.take(i as int).last() == (props@[i - 1].0@, props@[i - 1].1@));
        }
        if same(props[i - 1].0.as_str(), key) {
            return Some(props[i - 1].1.clone());
        }
        i -= 1;
    }
    None
}

fn or_unknown(value: Option<String>) -> (r: String)
    ensures
        r@ == (match value {
            Some(v) => v@,
            None => "unknown"@,
        }),
{
    match value {
        Some(v) => v,
        None => "unknown".to_owned(),
    }
}

/// Fetch rich metadata from a finished `systemctl show`
pub fn fetch_systemd_metadata(unit_name: &str, output: &CommandOutput) -> (r: Result<
    SystemdMetadata,
    String,
>)
    ensures
        r is Ok <==> output.success,
        r matches Err(e) ==> e@ == "systemctl show failed for "@ + unit_name@,
        r matches Ok(m) ==> ({
            let props = properties_in(lines_of(output.stdout@));
            &&& m.unit_name@ == unit_name@
            &&& view_of(m.description) == property(props, "Description"@)
            &&& m.active_state@ == (match property(props, "ActiveState"@) {
                Some(v) => v,
                None => "unknown"@,
            })
            &&& m.sub_state@ == (match property(props, "SubState"@) {
                Some(v) => v,
                None => "unknown"@,
            })
            &&& view_of(m.exec_start) == property(props, "ExecStart"@)
            &&& view_of(m.restart_policy) == property(props, "Restart"@)
        }),
{
    if !output.success {
        let mut message: String = "systemctl show failed for ".to_owned();
        message.append(unit_name);
        return Err(message);
    }
    let properties: Vec<(String, String)> = parse_systemctl_output(output.stdout.as_str());
    let props: &[(String, String)] = properties.as_slice();
    Ok(
        SystemdMetadata {
            unit_name: unit_name.to_owned(),
            description: last_value(props, "Description"),
            active_state: or_unknown(last_value(props, "ActiveState")),
            sub_state: or_unknown(last_value(props, "SubState")),
            exec_start: last_value(props, "ExecStart"),
            restart_policy: last_value(props, "Restart"),
        },
    )
}

} // verus!
