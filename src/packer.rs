use vstd::prelude::*;

verus! {

/// The settings a packer command takes; each command keeps those it uses.
pub trait CommandPacker {
    fn set_basepath(&mut self, _basepath: &str) {
    }

    fn set_paklist(&mut self, _paklist: &str) {
    }

    fn set_output(&mut self, _output: &str) {
    }

    fn set_input(&mut self, _input: &str) {
    }

    fn set_name_map(&mut self, _name_map: &str) {
    }

    fn set_targetpath(&mut self, _targetpath: &str) {
    }

    fn set_names_only(&mut self, _names_only: bool) {
    }
}

/// Lists the entries of an archive.
pub struct CommandPackerList {
    pub input: Option<String>,
    pub name_map: Option<String>,
}

impl CommandPackerList {
    pub fn new() -> (r: Self)
        ensures
            r.input is None,
            r.name_map is None,
    {
        CommandPackerList { input: None, name_map: None }
    }
}

impl CommandPacker for CommandPackerList {
    fn set_input(&mut self, input: &str) {
        self.input = Some(input.to_string());
    }

    fn set_name_map(&mut self, name_map: &str) {
        self.name_map = Some(name_map.to_string());
    }
}

/// Packs the files of a list into an archive.
pub struct CommandPackerPack {
    pub output: Option<String>,
    pub basepath: Option<String>,
    pub paklist: Option<String>,
    pub name_map: Option<String>,
    pub names_only: bool,
}

impl CommandPackerPack {
    pub fn new() -> (r: Self)
        ensures
            r.output is None,
            r.basepath is None,
            r.paklist is None,
            r.name_map is None,
            !r.names_only,
    {
        CommandPackerPack { output: None, basepath: None, paklist: None, name_map: None, names_only: false }
    }
}

impl CommandPacker for CommandPackerPack {
    fn set_basepath(&mut self, basepath: &str) {
        self.basepath = Some(basepath.to_string());
    }

    fn set_paklist(&mut self, paklist: &str) {
        self.paklist = Some(paklist.to_string());
    }

    fn set_output(&mut self, output: &str) {
        self.output = Some(output.to_string());
    }

    fn set_name_map(&mut self, name_map: &str) {
        self.name_map = Some(name_map.to_string());
    }

    fn set_names_only(&mut self, names_only: bool) {
        self.names_only = names_only;
    }
}

/// Unpacks an archive into a directory.
pub struct CommandPackerUnpack {
    pub input: Option<String>,
    pub targetpath: Option<String>,
    pub name_map: Option<String>,
    pub names_only: bool,
}

impl CommandPackerUnpack {
    pub fn new() -> (r: Self)
        ensures
            r.input is None,
            r.targetpath is None,
            r.name_map is None,
            !r.names_only,
    {
        CommandPackerUnpack { input: None, targetpath: None, name_map: None, names_only: false }
    }
}

impl CommandPacker for CommandPackerUnpack {
    fn set_input(&mut self, input: &str) {
        self.input = Some(input.to_string());
    }

    fn set_name_map(&mut self, name_map: &str) {
        self.name_map = Some(name_map.to_string());
    }

    fn set_targetpath(&mut self, targetpath: &str) {
        self.targetpath = Some(targetpath.to_string());
    }

    fn set_names_only(&mut self, names_only: bool) {
        self.names_only = names_only;
    }
}

} // verus!
