//! Rows of the catalog store. File records are what the virtual filesystem
//! places into its tree; the others describe the catalog around them.

use vstd::prelude::*;

verus! {

/// One stored file. The virtual path `file_vfs_path` is the flat key that
/// decides where the file sits in the virtual directory tree.
#[derive(Debug, Clone)]
pub struct FileRecord {
    pub file_uuid: String,
    pub file_name: String,
    pub file_size_bytes: u64,
    pub file_hash: String,
    pub file_dir_path: String,
    pub file_extension_tag: String,
    pub file_encoding: String,
    pub media_type_override_id: Option<String>,
    pub file_deleted: bool,
    pub file_read_only: bool,
    pub file_vfs_path: String,
}

impl FileRecord {
    /// A field-by-field copy of the record.
    pub fn duplicate(&self) -> (r: FileRecord)
        ensures
            r == *self,
    {
        let media_type_override_id = match &self.media_type_override_id {
            Some(s) => Some(s.clone()),
            None => None,
        };
        FileRecord {
            file_uuid: self.file_uuid.clone(),
            file_name: self.file_name.clone(),
            file_size_bytes: self.file_size_bytes,
            file_hash: self.file_hash.clone(),
            file_dir_path: self.file_dir_path.clone(),
            file_extension_tag: self.file_extension_tag.clone(),
            file_encoding: self.file_encoding.clone(),
            media_type_override_id,
            file_deleted: self.file_deleted,
            file_read_only: self.file_read_only,
            file_vfs_path: self.file_vfs_path.clone(),
        }
    }
}

/// A broad media category (documents, games, ...).
#[derive(Debug, Clone, PartialEq)]
pub struct MediaCategoryRecord {
    pub media_category_id: String,
    pub media_category_string_key: String,
}

/// A media type within a category.
#[derive(Debug, Clone, PartialEq)]
pub struct MediaTypeRecord {
    pub media_type_id: String,
    pub media_type_string_key: String,
    pub media_category_id: String,
}

/// A known file extension.
#[derive(Debug, Clone, PartialEq)]
pub struct FileExtensionRecord {
    pub file_extension_tag: String,
    pub file_extension_desc_string_key: String,
}

/// A media type that files with an extension may have.
#[derive(Debug, Clone, PartialEq)]
pub struct MediaTypeForFileExtensionsRecord {
    pub file_extension_tag: String,
    pub media_type_id: String,
}

/// A file that serves as artwork for another, in some role.
#[derive(Debug, Clone, PartialEq)]
pub struct FileArtworkRecord {
    pub file_uuid: String,
    pub artwork_file_uuid: String,
    pub artwork_role: String,
}

/// A further file that belongs to an object.
#[derive(Debug, Clone, PartialEq)]
pub struct ObjectExtraFileRecord {
    pub object_uuid: String,
    pub file_uuid: String,
    pub file_note: String,
}

/// An object's place in a collection.
#[derive(Debug, Clone, PartialEq)]
pub struct ObjectInCollection {
    pub collection_uuid: String,
    pub index_in_collection: i32,
    pub object_uuid: String,
}

/// A named collection of objects.
#[derive(Debug, Clone, PartialEq)]
pub struct CollectionRecord {
    pub uuid: String,
    pub name: String,
    pub visible: bool,
    pub location: String,
    pub deleted: bool,
}

/// A device that collections are synchronised to.
#[derive(Debug, Clone, PartialEq)]
pub struct DeviceRecord {
    pub device_uuid: String,
    pub device_name: String,
    pub device_description: String,
    pub device_icon_path: Option<String>,
}

/// A collection kept in sync on a device.
#[derive(Debug, Clone, PartialEq)]
pub struct DeviceSyncListRecord {
    pub device_uuid: String,
    pub collection_uuid: String,
    pub plugin_package_name: String,
    pub dsl_directory_on_device: String,
    pub last_sync_time: i32,
}

} // verus!
