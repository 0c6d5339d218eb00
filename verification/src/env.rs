//! The environment adapter: leaves of a table overwritten by the variables
//! of an environment that are named after their paths.

use crate::coerce::coerced;
use crate::coerce::parse_value;
use crate::tree::Item;
use crate::tree::Node;
use crate::tree::Table;
use vstd::prelude::*;
use vstd::string::StringExecFns;

verus! {

/// The upper-case form of a string, as the standard library's
/// `str::to_uppercase` gives it.
pub uninterp spec fn uppercase(s: Seq<char>) -> Seq<char>;

/// Calls `str::to_uppercase`, which maps each character to its upper-case
/// form by the Unicode tables, whatever the locale. The contract only names
/// what comes back.
#[verifier::external_body]
fn to_uppercase(s: &str) -> (r: String)
    ensures
        r@ == uppercase(s@),
{
    s.to_uppercase()
}

/// A snapshot of environment variables: names with their values, each name
/// once.
#[derive(Debug)]
pub struct Environment {
    vars: Table,
}

impl View for Environment {
    type V = Map<Seq<char>, Seq<char>>;

    closed spec fn view(&self) -> Map<Seq<char>, Seq<char>> {
        Map::new(
            |k: Seq<char>| self.vars@.dom().contains(k) && self.vars@[k] is Text,
            |k: Seq<char>| self.vars@[k]->Text_0,
        )
    }
}

impl Environment {
    /// Each name occurs once.
    pub closed spec fn wf(&self) -> bool {
        self.vars.wf()
    }

    /// An environment without variables.
    pub fn new() -> (env: Environment)
        ensures
            env.wf(),
            env@ == Map::<Seq<char>, Seq<char>>::empty(),
    {
        let env = Environment { vars: Table::new() };
        env
    }

    /// Sets the variable `name` to `value`.
    pub fn set(&mut self, name: String, value: String)
        requires
            old(self).wf(),
        ensures
            final(self).wf(),
            final(self)@ == old(self)@.insert(name@, value@),
    {
        self.vars.insert(name, Item::String(value));
    }

    /// The value of the variable `name`, if it is set.
    pub fn get(&self, name: &str) -> (r: Option<&str>)
        requires
            self.wf(),
        ensures
            match r {
                Some(value) => self@.dom().contains(name@) && value@ == self@[name@],
                None => !self@.dom().contains(name@),
            },
    {
        match self.vars.get(name) {
            Some(Item::String(value)) => Some(value.as_str()),
            _ => None,
        }
    }
}

/// What the environment makes of a node whose variable is called `name`,
/// case apart. A table keeps its keys, and each of its nodes is treated in
/// turn, under the table's name, an underscore and the node's key. Any other
/// node is a leaf: where the environment has a variable of the upper-case
/// form of `name`, the leaf becomes what that variable's value is coerced to,
/// and otherwise it stays.
pub open spec fn env_node(node: Node, name: Seq<char>, env: Map<Seq<char>, Seq<char>>) -> Node
    decreases node,
{
    match node {
        Node::Table(m) => Node::Table(
            Map::new(
                |k: Seq<char>| m.dom().contains(k),
                |k: Seq<char>|
                    if m.dom().contains(k) {
                        env_node(m[k], name + seq!['_'] + k, env)
                    } else {
                        arbitrary()
                    },
            ),
        ),
        leaf => if env.dom().contains(uppercase(name)) {
            coerced(env[uppercase(name)])
        } else {
            leaf
        },
    }
}

/// What the environment makes of a table whose keys are named with `root`
/// before them: the same keys, each node treated by `env_node` under the
/// name made of `root` and its key.
pub open spec fn env_merged(
    table: Map<Seq<char>, Node>,
    root: Seq<char>,
    env: Map<Seq<char>, Seq<char>>,
) -> Map<Seq<char>, Node> {
    Map::new(|k: Seq<char>| table.dom().contains(k), |k: Seq<char>| env_node(table[k], root + k, env))
}

/// A table below a table is treated as a table of its own, its root being
/// the name of the table and an underscore.
pub proof fn lemma_env_node_table(
    m: Map<Seq<char>, Node>,
    name: Seq<char>,
    env: Map<Seq<char>, Seq<char>>,
)
    ensures
        env_node(Node::Table(m), name, env) == Node::Table(env_merged(m, name + seq!['_'], env)),
{
    assert(env_node(Node::Table(m), name, env)->Table_0 =~= env_merged(m, name + seq!['_'], env));
}

/// The environment touches a leaf only where it has the leaf's variable: a
/// table keeps its keys; a table below it is treated in turn and never
/// replaced as a whole; a leaf whose variable is set becomes what the value
/// is coerced to; every other leaf stays as it is.
pub proof fn lemma_env_merged(
    table: Map<Seq<char>, Node>,
    root: Seq<char>,
    env: Map<Seq<char>, Seq<char>>,
    k: Seq<char>,
)
    requires
        table.dom().contains(k),
    ensures
        env_merged(table, root, env).dom() == table.dom(),
        table[k] is Table ==> env_merged(table, root, env)[k] == Node::Table(
            env_merged(table[k]->Table_0, root + k + seq!['_'], env),
        ),
        !(table[k] is Table) && env.dom().contains(uppercase(root + k)) ==> env_merged(
            table,
            root,
            env,
        )[k] == coerced(env[uppercase(root + k)]),
        !(table[k] is Table) && !env.dom().contains(uppercase(root + k)) ==> env_merged(
            table,
            root,
            env,
        )[k] == table[k],
{
    if table[k] is Table {
        lemma_env_node_table(table[k]->Table_0, root + k, env);
    }
}

/// An environment without variables changes nothing.
pub proof fn lemma_env_node_empty(node: Node, name: Seq<char>)
    ensures
        env_node(node, name, Map::empty()) == node,
    decreases node,
{
    match node {
        Node::Table(m) => {
            assert forall|k: Seq<char>| m.dom().contains(k) implies env_node(
                m[k],
                name + seq!['_'] + k,
                Map::empty(),
            ) == m[k] by {
                lemma_env_node_empty(m[k], name + seq!['_'] + k);
            }
            assert(env_node(node, name, Map::empty())->Table_0 =~= m);
        },
        _ => {},
    }
}

/// An environment without variables leaves a table as it is.
pub proof fn lemma_env_merged_empty(table: Map<Seq<char>, Node>, root: Seq<char>)
    ensures
        env_merged(table, root, Map::empty()) == table,
{
    assert forall|k: Seq<char>| table.dom().contains(k) implies env_node(
        table[k],
        root + k,
        Map::empty(),
    ) == table[k] by {
        lemma_env_node_empty(table[k], root + k);
    }
}

/// Overwrites the leaves of `left` by the variables of `env`.
///
/// The variable of a leaf is named by `root`, then the keys on the way to
/// the leaf joined by underscores, all in upper case. Where `env` has that
/// variable, the leaf becomes what the variable's value is coerced to.
/// A table is never overwritten as a whole, and no key comes or goes.
pub fn merge_env(left: &mut Table, root: &str, env: &Environment)
    requires
        old(left).wf(),
        env.wf(),
    ensures
        final(left).wf(),
        final(left)@ == env_merged(old(left)@, root@, env@),
    decreases *old(left),
{
    let ghost orig = *left;
    let n: usize = left.entries.len();
    let mut i: usize = 0;
    while i < n
        invariant
            i <= n,
            n == orig.entries@.len(),
            left.entries@.len() == n,
            orig == *old(left),
            orig.wf(),
            env.wf(),
            forall|j: int| 0 <= j < n ==> (#[trigger] left.entries@[j]).key@ == orig.entries@[j].key@,
            forall|j: int| i <= j < n ==> #[trigger] left.entries@[j] == orig.entries@[j],
            forall|j: int| 0 <= j < n ==> (#[trigger] left.entries@[j]).value.wf(),
            forall|j: int|
                0 <= j < i ==> (#[trigger] left.entries@[j]).value@ == env_node(
                    orig.entries@[j].value@,
                    root@ + orig.entries@[j].key@,
                    env@,
                ),
        decreases n - i,
    {
        let ghost key = orig.entries@[i as int].key@;
        if left.entries[i].value.is_table() {
            let below = String::from_str(root).concat(left.entries[i].key.as_str()).concat("_");
            proof {
                reveal_strlit("_");
                assert(below@ =~= (root@ + key) + seq!['_']);
            }
            match &mut left.entries[i].value {
                Item::Table(sub) => {
                    proof {
                        lemma_env_node_table(sub@, root@ + key, env@);
                    }
                    merge_env(sub, below.as_str(), env);
                },
                _ => {},
            }
        } else {
            let name = to_uppercase(
                String::from_str(root).concat(left.entries[i].key.as_str()).as_str(),
            );
            match env.get(name.as_str()) {
                Some(text) => {
                    let slot = &mut left.entries[i].value;
                    *slot = parse_value(text);
                },
                None => {},
            }
        }
        i += 1;
    }
    proof {
        assert(left.key_seq() =~= orig.key_seq());
        assert forall|k: Seq<char>| left@.dom().contains(k) implies #[trigger] left@[k]
            == env_merged(orig@, root@, env@)[k] by {
            let j = left.key_seq().index_of(k);
            assert(left.key_seq()[j] == k);
            left.lemma_entry(j);
            orig.lemma_entry(j);
        }
    }
}

} // verus!
