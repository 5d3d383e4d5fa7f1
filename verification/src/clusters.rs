//! The cluster membership system table: a read-only metadata provider
//! exposing one row per cluster node. Node identifiers, addresses and
//! version strings are carried as opaque interned codes, as every cell of
//! a chunk is.

use vstd::prelude::*;

use crate::chunk::Chunk;
use crate::chunk::Column;
use crate::chunk::DataType;

verus! {

/// One member of the cluster, as the membership provider reports it.
#[derive(Clone, Copy, PartialEq, Eq, Structural, Debug)]
pub struct ClusterNode {
    /// Interned code of the node id.
    pub id: u64,
    /// Interned code of the node's host address.
    pub host: u64,
    /// The node's port.
    pub port: u16,
    /// Interned code of the node's binary version.
    pub version: u64,
}

/// One field of a table schema.
pub struct TableField {
    pub name: &'static str,
    pub data_type: DataType,
}

/// Identity of a table version in the catalog.
#[derive(Clone, Copy, PartialEq, Eq, Structural, Debug)]
pub struct TableIdent {
    pub table_id: u64,
    pub seq_version: u64,
}

/// Catalog metadata of one table.
pub struct TableInfo {
    pub desc: &'static str,
    pub name: &'static str,
    pub ident: TableIdent,
    pub engine: &'static str,
    pub schema: Vec<TableField>,
}

/// The system table listing the cluster's nodes.
pub struct ClustersTable {
    pub table_info: TableInfo,
}

impl ClustersTable {
    /// Creates the table with its four-field schema: node name, host,
    /// port and binary version.
    pub fn create(table_id: u64) -> (t: ClustersTable)
        ensures
            t.table_info.ident.table_id == table_id,
            t.table_info.ident.seq_version == 0,
            t.table_info.name@ == "clusters"@,
            t.table_info.desc@ == "'system'.'clusters'"@,
            t.table_info.engine@ == "SystemClusters"@,
            t.table_info.schema@.len() == 4,
            t.table_info.schema@[0].name@ == "name"@ && t.table_info.schema@[0].data_type
                == DataType::Text,
            t.table_info.schema@[1].name@ == "host"@ && t.table_info.schema@[1].data_type
                == DataType::Text,
            t.table_info.schema@[2].name@ == "port"@ && t.table_info.schema@[2].data_type
                == DataType::UInt16,
            t.table_info.schema@[3].name@ == "version"@ && t.table_info.schema@[3].data_type
                == DataType::Text,
    {
        let mut schema: Vec<TableField> = Vec::new();
        schema.push(TableField { name: "name", data_type: DataType::Text });
        schema.push(TableField { name: "host", data_type: DataType::Text });
        schema.push(TableField { name: "port", data_type: DataType::UInt16 });
        schema.push(TableField { name: "version", data_type: DataType::Text });
        ClustersTable {
            table_info: TableInfo {
                desc: "'system'.'clusters'",
                name: "clusters",
                ident: TableIdent { table_id, seq_version: 0 },
                engine: "SystemClusters",
                schema,
            },
        }
    }

    /// The table's catalog metadata.
    pub fn get_table_info(&self) -> (r: &TableInfo)
        ensures
            r == &self.table_info,
    {
        &self.table_info
    }

    /// Renders the given cluster membership as one chunk: four columns —
    /// name, host, port, version — with one row per node.
    pub fn get_full_data(&self, nodes: &Vec<ClusterNode>) -> (c: Chunk)
        ensures
            c.wf(),
            c.num_rows == nodes@.len(),
            c.columns@.len() == 4,
            c.dtypes() == seq![DataType::Text, DataType::Text, DataType::UInt16, DataType::Text],
            c.col_views()[0] == Seq::new(nodes@.len(), |i: int| nodes@[i].id),
            c.col_views()[1] == Seq::new(nodes@.len(), |i: int| nodes@[i].host),
            c.col_views()[2] == Seq::new(nodes@.len(), |i: int| nodes@[i].port as u64),
            c.col_views()[3] == Seq::new(nodes@.len(), |i: int| nodes@[i].version),
    {
        let n = nodes.len();
        let mut names: Vec<u64> = Vec::new();
        let mut hosts: Vec<u64> = Vec::new();
        let mut ports: Vec<u64> = Vec::new();
        let mut versions: Vec<u64> = Vec::new();
        let mut i: usize = 0;
        while i < n
            invariant
                n == nodes@.len(),
                i <= n,
                names@.len() == i,
                hosts@.len() == i,
                ports@.len() == i,
                versions@.len() == i,
                forall|q: int| 0 <= q < i ==> #[trigger] names@[q] == nodes@[q].id,
                forall|q: int| 0 <= q < i ==> #[trigger] hosts@[q] == nodes@[q].host,
                forall|q: int| 0 <= q < i ==> #[trigger] ports@[q] == nodes@[q].port as u64,
                forall|q: int| 0 <= q < i ==> #[trigger] versions@[q] == nodes@[q].version,
            decreases n - i,
        {
            names.push(nodes[i].id);
            hosts.push(nodes[i].host);
            ports.push(nodes[i].port as u64);
            versions.push(nodes[i].version);
            i += 1;
        }
        let mut columns: Vec<Column> = Vec::new();
        columns.push(Column { data_type: DataType::Text, values: names });
        columns.push(Column { data_type: DataType::Text, values: hosts });
        columns.push(Column { data_type: DataType::UInt16, values: ports });
        columns.push(Column { data_type: DataType::Text, values: versions });
        let c = Chunk { columns, num_rows: n };
        proof {
            assert(c.dtypes() =~= seq![
                DataType::Text,
                DataType::Text,
                DataType::UInt16,
                DataType::Text,
            ]);
            assert(c.col_views()[0] =~= Seq::new(nodes@.len(), |i: int| nodes@[i].id));
            assert(c.col_views()[1] =~= Seq::new(nodes@.len(), |i: int| nodes@[i].host));
            assert(c.col_views()[2] =~= Seq::new(nodes@.len(), |i: int| nodes@[i].port as u64));
            assert(c.col_views()[3] =~= Seq::new(nodes@.len(), |i: int| nodes@[i].version));
            assert forall|q: int|
                0 <= q < c.columns@.len() implies #[trigger] c.columns@[q].values@.len()
                == c.num_rows by {}
        }
        c
    }
}

} // verus!
