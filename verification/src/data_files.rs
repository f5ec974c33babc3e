//! Metadata describing one corpus data file: its file name, the MD5 digest
//! it must match, and the URL it can be fetched from. Acquisition itself
//! (network and disk) is the caller's business; this type only carries the
//! values and derives the storage path.

use vstd::prelude::*;

verus! {

/// The directory-relative path under which a corpus data file is stored.
pub fn file_name_to_filepath(file_name: &str) -> (r: String)
    ensures
        r@ == "data/"@ + file_name@,
{
    let mut path = String::from_str("data/");
    path.append(file_name);
    path
}

/// Name, expected MD5 digest and source URL of one corpus data file.
#[derive(Debug)]
pub struct DataFileMetaData {
    pub file_name: String,
    pub md5_digest: String,
    pub url: String,
}

impl Clone for DataFileMetaData {
    fn clone(&self) -> (r: Self)
        ensures
            r == *self,
    {
        DataFileMetaData {
            file_name: self.file_name.clone(),
            md5_digest: self.md5_digest.clone(),
            url: self.url.clone(),
        }
    }
}

impl DataFileMetaData {
    pub fn new(file_name: &str, md5_digest: &str, url: &str) -> (r: DataFileMetaData)
        ensures
            r.file_name@ == file_name@,
            r.md5_digest@ == md5_digest@,
            r.url@ == url@,
    {
        DataFileMetaData {
            file_name: String::from_str(file_name),
            md5_digest: String::from_str(md5_digest),
            url: String::from_str(url),
        }
    }

    pub fn get_file_name(&self) -> (r: &str)
        ensures
            r@ == self.file_name@,
    {
        self.file_name.as_str()
    }

    pub fn get_file_path(&self) -> (r: String)
        ensures
            r@ == "data/"@ + self.file_name@,
    {
        file_name_to_filepath(self.file_name.as_str())
    }

    pub fn get_md5_digest(&self) -> (r: &str)
        ensures
            r@ == self.md5_digest@,
    {
        self.md5_digest.as_str()
    }

    pub fn get_url(&self) -> (r: &str)
        ensures
            r@ == self.url@,
    {
        self.url.as_str()
    }
}

} // verus!
