use vstd::prelude::*;
use std::collections::VecDeque;

verus! {

/// Collects the files under a directory in a fixed order: first the files of the base
/// directory, then those of its subdirectories, each subdirectory's files (and those of
/// the subdirectories inside it) before the next subdirectory is visited. Listing a
/// directory is left to the caller: `next_action` says which directory to list, and
/// `add_entry` takes each of its entries.
pub struct FileCollector {
    pub base_path: String,
    pub dirs_to_visit: VecDeque<String>,
    pub collected_files: VecDeque<String>,
    pub recursive: bool,
}

/// What the caller should do next.
pub enum CollectAction {
    /// List this directory, handing each entry to `add_entry`, then ask again.
    ReadDir(String),
    /// The next file.
    Yield(String),
    /// No file is left; the collector is ready to collect again from the base directory.
    Done,
}

/// The text of a queue of paths.
pub open spec fn paths_view(q: Seq<String>) -> Seq<Seq<char>> {
    Seq::new(q.len(), |i: int| q[i]@)
}

/// The files waiting and the directories to visit after the collector takes the entry
/// `e` (its path, whether it is a file, whether it is a directory): a file goes last among
/// the files, a directory that is not a file goes first among the directories when the
/// walk is recursive, and anything else is passed over.
pub open spec fn after_entry(
    files: Seq<Seq<char>>,
    dirs: Seq<Seq<char>>,
    e: (Seq<char>, bool, bool),
    recursive: bool,
) -> (Seq<Seq<char>>, Seq<Seq<char>>) {
    (
        if e.1 { files.push(e.0) } else { files },
        if !e.1 && e.2 && recursive { seq![e.0] + dirs } else { dirs },
    )
}

impl FileCollector {
    /// A collector for the files under `base_path` (already made absolute), visiting
    /// subdirectories when `recursive`.
    pub fn new(base_path: String, recursive: bool) -> (c: FileCollector)
        ensures
            c.base_path@ == base_path@,
            paths_view(c.dirs_to_visit@) == seq![base_path@],
            c.collected_files@.len() == 0,
            c.recursive == recursive,
    {
        let mut dirs_to_visit: VecDeque<String> = VecDeque::new();
        dirs_to_visit.push_front(base_path.clone());
        let c = FileCollector { base_path, dirs_to_visit, collected_files: VecDeque::new(), recursive };
        assert(paths_view(c.dirs_to_visit@) =~= seq![c.base_path@]);
        c
    }

    /// The next step: hand out the next file of the directories listed so far; when none
    /// is left, list the next directory to visit; when none is left either, queue the base
    /// directory again and finish.
    pub fn next_action(&mut self) -> (a: CollectAction)
        ensures
            final(self).base_path == old(self).base_path,
            final(self).recursive == old(self).recursive,
            ({
                let files = paths_view(old(self).collected_files@);
                let dirs = paths_view(old(self).dirs_to_visit@);
                if files.len() > 0 {
                    &&& a matches CollectAction::Yield(p) && p@ == files[0]
                    &&& paths_view(final(self).collected_files@) == files.drop_first()
                    &&& paths_view(final(self).dirs_to_visit@) == dirs
                } else if dirs.len() > 0 {
                    &&& a matches CollectAction::ReadDir(d) && d@ == dirs[0]
                    &&& paths_view(final(self).dirs_to_visit@) == dirs.drop_first()
                    &&& paths_view(final(self).collected_files@) == files
                } else {
                    &&& a is Done
                    &&& paths_view(final(self).dirs_to_visit@) == seq![old(self).base_path@]
                    &&& paths_view(final(self).collected_files@) == files
                }
            }),
    {
        let ghost files = paths_view(self.collected_files@);
        let ghost dirs = paths_view(self.dirs_to_visit@);
        if self.collected_files.len() > 0 {
            let p = self.collected_files.pop_front().unwrap();
            assert(paths_view(self.collected_files@) =~= files.drop_first());
            return CollectAction::Yield(p);
        }
        match self.dirs_to_visit.pop_front() {
            Some(dir) => {
                assert(paths_view(self.dirs_to_visit@) =~= dirs.drop_first());
                return CollectAction::ReadDir(dir);
            },
            None => {},
        }
        self.dirs_to_visit.push_front(self.base_path.clone());
        assert(paths_view(self.dirs_to_visit@) =~= seq![self.base_path@]);
        CollectAction::Done
    }

    /// Takes an entry of the directory being listed: a file goes after the files already
    /// waiting, a directory (when recursive) in front of the directories to visit.
    pub fn add_entry(&mut self, path: String, is_file: bool, is_dir: bool)
        ensures
            final(self).base_path == old(self).base_path,
            final(self).recursive == old(self).recursive,
            (paths_view(final(self).collected_files@), paths_view(final(self).dirs_to_visit@))
                == after_entry(
                paths_view(old(self).collected_files@),
                paths_view(old(self).dirs_to_visit@),
                (path@, is_file, is_dir),
                old(self).recursive,
            ),
    {
        let ghost files = paths_view(self.collected_files@);
        let ghost dirs = paths_view(self.dirs_to_visit@);
        let ghost pv = path@;
        if is_file {
            self.collected_files.push_back(path);
            assert(paths_view(self.collected_files@) =~= files.push(pv));
        } else if is_dir && self.recursive {
            self.dirs_to_visit.push_front(path);
            assert(paths_view(self.dirs_to_visit@) =~= seq![pv] + dirs);
        }
    }
}

} // verus!
