use vstd::prelude::*;

verus! {

/// Whether a simulated file is currently readable.
#[derive(Debug, PartialEq, Eq, Structural)]
pub enum FileState {
    Open,
    Closed,
}

/// A simulated file: a name, its bytes, and an open/closed state.
#[derive(Debug)]
pub struct File {
    pub name: String,
    pub data: Vec<u8>,
    pub state: FileState,
}

impl File {
    /// New files are empty and closed; only a name is required.
    pub fn new(name: &str) -> (r: File)
        ensures
            r.name@ == name@,
            r.data@.len() == 0,
            r.state == FileState::Closed,
    {
        File { name: name.to_owned(), data: Vec::new(), state: FileState::Closed }
    }

    /// Appends the file's bytes to `save_to`; fails unless the file
    /// is open.
    pub fn read(&self, save_to: &mut Vec<u8>) -> (r: Result<usize, String>)
        ensures
            self.state == FileState::Open ==> r == Ok::<usize, String>(self.data@.len() as usize)
                && final(save_to)@ == old(save_to)@ + self.data@,
            self.state != FileState::Open ==> r is Err && final(save_to)@ == old(save_to)@,
    {
        if !(self.state == FileState::Open) {
            return Err("File must be open for reading".to_owned());
        }
        let mut i: usize = 0;
        while i < self.data.len()
            invariant
                i <= self.data@.len(),
                save_to@ == old(save_to)@ + self.data@.subrange(0, i as int),
            decreases self.data@.len() - i,
        {
            save_to.push(self.data[i]);
            assert(save_to@ =~= old(save_to)@ + self.data@.subrange(0, i + 1));
            i = i + 1;
        }
        proof {
            assert(save_to@ =~= old(save_to)@ + self.data@);
        }
        Ok(self.data.len())
    }

    /// The file's length in bytes.
    pub fn len(&self) -> (r: usize)
        ensures
            r == self.data@.len(),
    {
        self.data.len()
    }

    /// The file's name.
    pub fn name(&self) -> (r: String)
        ensures
            r@ == self.name@,
    {
        self.name.clone()
    }
}

/// Marks the file readable.
pub fn open(f: File) -> (r: Result<File, String>)
    ensures
        match r {
            Ok(g) => g.state == FileState::Open && g.name@ == f.name@ && g.data@ == f.data@,
            Err(_) => false,
        },
{
    let mut f = f;
    f.state = FileState::Open;
    Ok(f)
}

/// Marks the file closed.
pub fn close(f: File) -> (r: Result<File, String>)
    ensures
        match r {
            Ok(g) => g.state == FileState::Closed && g.name@ == f.name@ && g.data@ == f.data@,
            Err(_) => false,
        },
{
    let mut f = f;
    f.state = FileState::Closed;
    Ok(f)
}

} // verus!
