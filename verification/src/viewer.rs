//! Viewer state for DAT files and the selection/action types the tree
//! navigation exchanges: plain data that the surrounding presentation layer
//! drives.

use crate::dat::DatReader;
use crate::ggpk::GgpkReader;
use crate::schema::Schema;
use vstd::prelude::*;

verus! {

/// What the user has selected in the tree: a record of the record-tree
/// container by offset, or an indexed bundle file by path hash.
#[derive(Debug, Clone, Copy, PartialEq, Eq, Structural)]
pub enum FileSelection {
    GgpkOffset(u64),
    BundleFile(u64),
}

/// What a tree interaction asks for: nothing, selecting a file, or exporting
/// a folder of bundle files (their path hashes, and the folder's name).
#[derive(Debug, Clone)]
pub enum TreeViewAction {
    Nothing,
    Select(FileSelection),
    ExportBundleFolder(Vec<u64>, String),
}

/// The DAT viewer's state: the loaded schema, the reader of the currently
/// loaded file, and its error message, if loading failed.
pub struct DatViewer {
    pub schema: Option<Schema>,
    pub schema_date: String,
    pub reader: Option<DatReader>,
    pub request_update_schema: bool,
    pub error_msg: Option<String>,
}

impl DatViewer {
    /// The name of the loaded file, if one is loaded.
    pub fn loaded_filename(&self) -> (r: Option<&str>)
        ensures
            match r {
                Some(name) => self.reader is Some && name@ == self.reader.unwrap().filename@,
                None => self.reader is None,
            },
    {
        match &self.reader {
            Some(r) => Some(r.filename.as_str()),
            None => None,
        }
    }

    /// Installs a schema and remembers its date.
    pub fn set_schema(&mut self, schema: Schema, date: String)
        ensures
            final(self).schema == Some(schema),
            final(self).schema_date == date,
            final(self).reader == old(self).reader,
            final(self).request_update_schema == old(self).request_update_schema,
            final(self).error_msg == old(self).error_msg,
    {
        self.schema = Some(schema);
        self.schema_date = date;
    }

    /// Loads the bytes of `data` as a DAT file named `filename`. The viewer
    /// holds a reader over exactly those bytes, with no error message, when
    /// and only when they decode as a DAT file; otherwise it holds no reader
    /// and an error message. A failed load never leaves an earlier reader in
    /// place.
    pub fn load_from_bytes(&mut self, data: Vec<u8>, filename: &str)
        ensures
            match final(self).reader {
                Some(reader) => {
                    &&& crate::dat::dat_decodes(data@, filename@)
                    &&& reader.data@ == data@
                    &&& reader.filename@ == filename@
                    &&& final(self).error_msg is None
                },
                None => !crate::dat::dat_decodes(data@, filename@) && final(self).error_msg is Some,
            },
            final(self).schema == old(self).schema,
            final(self).schema_date == old(self).schema_date,
    {
        self.error_msg = None;
        match DatReader::new(data, filename) {
            Ok(dat_reader) => {
                self.reader = Some(dat_reader);
            },
            Err(_) => {
                self.error_msg = Some(failed_load_message(filename));
                self.reader = None;
            },
        }
    }

    /// Loads the file record at `offset` of the container and decodes its
    /// data as a DAT file. The viewer holds a reader over exactly the
    /// record's data bytes when and only when the record reads, its data
    /// range lies in the buffer, and the bytes decode as a DAT file under
    /// the record's name; any failure leaves an error message and no reader.
    pub fn load(&mut self, reader: &GgpkReader, offset: u64)
        ensures
            ({
                let d = reader.buf();
                let off = offset as int;
                let v = reader.version;
                let ok = ({
                    &&& crate::ggpk::file_at_ok(d, off, v)
                    &&& ({
                        let rec = crate::ggpk::rec_slice(d, off);
                        let ds = off + crate::record::file_name_end(rec, v);
                        let dl = crate::wire::le32_at(d, off) - crate::record::file_name_end(
                            rec,
                            v,
                        );
                        &&& ds + dl <= d.len()
                        &&& crate::dat::dat_decodes(
                            d.subrange(ds, ds + dl),
                            crate::ggpk::file_name_at(d, off, v),
                        )
                    })
                });
                match final(self).reader {
                    Some(r) => {
                        &&& ok
                        &&& ({
                            let rec = crate::ggpk::rec_slice(d, off);
                            let ds = off + crate::record::file_name_end(rec, v);
                            let dl = crate::wire::le32_at(d, off) - crate::record::file_name_end(
                                rec,
                                v,
                            );
                            r.data@ == d.subrange(ds, ds + dl)
                        })
                        &&& final(self).error_msg is None
                    },
                    None => !ok && final(self).error_msg is Some,
                }
            }),
            final(self).schema == old(self).schema,
            final(self).schema_date == old(self).schema_date,
    {
        match reader.read_file_record(offset) {
            Ok(file) => {
                match reader.get_data_slice(file.data_offset, file.data_length) {
                    Ok(data) => {
                        let bytes = vstd::slice::slice_to_vec(data);
                        self.load_from_bytes(bytes, file.name.as_str());
                    },
                    Err(_) => {
                        self.error_msg = Some(failed_load_message(file.name.as_str()));
                        self.reader = None;
                    },
                }
            },
            Err(_) => {
                self.error_msg = Some(failed_load_message("record"));
                self.reader = None;
            },
        }
    }
}

/// A short failure note naming the file that would not load.
fn failed_load_message(filename: &str) -> (r: String)
    ensures
        r@ == "failed to load "@ + filename@,
{
    let mut msg = crate::strutil::str_chars("failed to load ");
    let name = crate::strutil::str_chars(filename);
    let n = name.len();
    let mut i: usize = 0;
    proof {
        assert(msg@ =~= "failed to load "@ + name@.subrange(0, 0));
    }
    while i < n
        invariant
            n == name@.len(),
            i <= n,
            msg@ == "failed to load "@ + name@.subrange(0, i as int),
        decreases n - i,
    {
        msg.push(name[i]);
        i = i + 1;
        proof {
            assert(msg@ =~= "failed to load "@ + name@.subrange(0, i as int));
        }
    }
    proof {
        assert(msg@ =~= "failed to load "@ + name@);
    }
    crate::strutil::chars_to_string(&msg)
}

} // verus!
