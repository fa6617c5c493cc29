//! The batch system: the table of linked-in applications, which one runs
//! next, where its image lies, and how it is loaded and started.
use vstd::prelude::*;
use crate::trap::{TrapContext, initial_registers};

verus! {

/// Size of the user stack in bytes.
pub const USER_STACK_SIZE: usize = 8192;
/// Size of the kernel stack in bytes.
pub const KERNEL_STACK_SIZE: usize = 8192;
/// Largest number of applications.
pub const MAX_APP_NUM: usize = 16;
/// Address at which every application is loaded and starts.
pub const APP_BASE_ADDRESS: usize = 0x80400000;
/// Size of the area an application is loaded into.
pub const APP_SIZE_LIMIT: usize = 0x20000;

/// The linked-in applications and the one to run next: application `i`
/// occupies the bytes `app_start[i] .. app_start[i + 1]`.
pub struct AppManager {
    num_app: usize,
    current_app: usize,
    app_start: [usize; 17],
}

/// What loading an application amounts to.
#[derive(Clone, Copy, Debug, PartialEq, Eq, Structural)]
pub enum LoadPlan {
    /// No application is left: every one has completed.
    AllCompleted,
    /// Copy the `len` bytes at `src` to the application area.
    Copy { src: usize, len: usize },
}

/// What running the next application amounts to.
pub enum NextApp {
    /// No application is left: every one has completed.
    AllCompleted,
    /// Load application `app_id` (its image is the `len` bytes at `src`)
    /// and enter it with `context`.
    Run { app_id: usize, src: usize, len: usize, context: TrapContext },
}

impl AppManager {
    /// Number of applications.
    pub closed spec fn num(&self) -> usize {
        self.num_app
    }

    /// The application to run next.
    pub closed spec fn current(&self) -> usize {
        self.current_app
    }

    /// The boundaries of the application images: `num() + 1` addresses,
    /// then zeros up to the table's capacity.
    pub closed spec fn starts(&self) -> Seq<usize> {
        self.app_start@
    }

    /// At most `MAX_APP_NUM` applications, and room for their boundaries.
    pub closed spec fn wf(&self) -> bool {
        &&& self.num_app <= MAX_APP_NUM
        &&& self.app_start@.len() == MAX_APP_NUM + 1
    }

    /// The manager for the link table `table`: `table[0]` is the number of
    /// applications `n`, and `table[1 ..= n + 1]` the boundaries of their
    /// images. No application has run yet.
    pub fn new(table: &[usize]) -> (r: AppManager)
        requires
            table@.len() >= 1,
            table@[0] <= MAX_APP_NUM,
            table@.len() >= table@[0] + 2,
        ensures
            r.wf(),
            r.num() == table@[0],
            r.current() == 0,
            r.starts().len() == MAX_APP_NUM + 1,
            forall|i: int| 0 <= i <= table@[0] ==> #[trigger] r.starts()[i] == table@[i + 1],
            forall|i: int| table@[0] < i <= MAX_APP_NUM ==> #[trigger] r.starts()[i] == 0,
    {
        let num_app = table[0];
        let mut app_start: [usize; 17] = [0usize; 17];
        let mut i: usize = 0;
        while i <= num_app
            invariant
                num_app == table@[0],
                num_app <= MAX_APP_NUM,
                table@.len() >= num_app + 2,
                i <= num_app + 1,
                app_start@.len() == 17,
                forall|j: int| 0 <= j < i ==> #[trigger] app_start@[j] == table@[j + 1],
                forall|j: int| i <= j < 17 ==> #[trigger] app_start@[j] == 0,
            decreases num_app + 1 - i,
        {
            app_start[i] = table[i + 1];
            i = i + 1;
        }
        AppManager { num_app, current_app: 0, app_start }
    }

    /// The image bounds `(start, end)` of every application, in order.
    pub fn app_ranges(&self) -> (r: Vec<(usize, usize)>)
        requires
            self.wf(),
        ensures
            r@.len() == self.num(),
            forall|i: int|
                0 <= i < self.num() ==> #[trigger] r@[i] == (self.starts()[i], self.starts()[i + 1]),
    {
        let mut r: Vec<(usize, usize)> = Vec::new();
        let mut i: usize = 0;
        while i < self.num_app
            invariant
                self.wf(),
                i <= self.num(),
                r@.len() == i,
                forall|j: int| 0 <= j < i ==> #[trigger] r@[j] == (self.starts()[j], self.starts()[j + 1]),
            decreases self.num() - i,
        {
            r.push((self.app_start[i], self.app_start[i + 1]));
            i = i + 1;
        }
        r
    }

    /// What loading application `app_id` amounts to: nothing left when
    /// every application has completed, else copying its image.
    pub fn load_app(&self, app_id: usize) -> (r: LoadPlan)
        requires
            self.wf(),
            app_id < self.num() ==> self.starts()[app_id as int] <= self.starts()[app_id + 1],
        ensures
            app_id >= self.num() ==> r == LoadPlan::AllCompleted,
            app_id < self.num() ==> r == (LoadPlan::Copy {
                src: self.starts()[app_id as int],
                len: (self.starts()[app_id + 1] - self.starts()[app_id as int]) as usize,
            }),
    {
        if app_id >= self.num_app {
            return LoadPlan::AllCompleted;
        }
        LoadPlan::Copy {
            src: self.app_start[app_id],
            len: self.app_start[app_id + 1] - self.app_start[app_id],
        }
    }

    /// The application to run next.
    pub fn get_current_app(&self) -> (r: usize)
        ensures
            r == self.current(),
    {
        self.current_app
    }

    /// Moves on to the next application.
    pub fn move_to_next_app(&mut self)
        requires
            old(self).current() < usize::MAX,
        ensures
            old(self).wf() ==> final(self).wf(),
            final(self).current() == old(self).current() + 1,
            final(self).num() == old(self).num(),
            final(self).starts() == old(self).starts(),
    {
        self.current_app = self.current_app + 1;
    }
}

/// The application that `r` runs, if any.
pub open spec fn ran_app(r: NextApp) -> Option<usize> {
    match r {
        NextApp::Run { app_id, .. } => Some(app_id),
        NextApp::AllCompleted => None,
    }
}

/// Whether `after` and `ran` are what running the next application from
/// `before` gives: the current application runs and the manager moves on
/// by one, or, when every application has completed, nothing runs and
/// nothing changes.
pub open spec fn runs_next(before: AppManager, after: AppManager, ran: Option<usize>) -> bool {
    if before.current() < before.num() {
        &&& ran == Some(before.current())
        &&& after.current() == before.current() + 1
        &&& after.num() == before.num()
        &&& after.starts() == before.starts()
    } else {
        ran is None && after == before
    }
}

/// Starting from the first application and running the next one again and
/// again runs the applications in order, each once, and then reports that
/// all have completed; the current application never passes their number.
pub proof fn lemma_apps_run_in_order(ms: Seq<AppManager>, rans: Seq<Option<usize>>)
    requires
        ms.len() == rans.len() + 1,
        ms[0].current() == 0,
        forall|j: int| 0 <= j < rans.len() ==> runs_next(ms[j], ms[j + 1], #[trigger] rans[j]),
    ensures
        forall|j: int|
            0 <= j < rans.len() ==> #[trigger] rans[j] == (if j < ms[0].num() {
                Some(j as usize)
            } else {
                None
            }),
        forall|j: int|
            0 <= j < ms.len() ==> #[trigger] ms[j].current() == (if j < ms[0].num() {
                j
            } else {
                ms[0].num() as int
            }),
        forall|j: int| 0 <= j < ms.len() ==> #[trigger] ms[j].num() == ms[0].num(),
    decreases rans.len(),
{
    if rans.len() > 0 {
        let n = rans.len() - 1;
        let ms2 = ms.drop_last();
        let rans2 = rans.drop_last();
        assert forall|j: int| 0 <= j < rans2.len() implies runs_next(ms2[j], ms2[j + 1], #[trigger] rans2[j]) by {
            assert(runs_next(ms[j], ms[j + 1], rans[j]));
        }
        assert(ms2[0] == ms[0]);
        lemma_apps_run_in_order(ms2, rans2);
        assert(ms2[n] == ms[n]);
        assert(ms2[n].current() == (if n < ms[0].num() {
            n
        } else {
            ms[0].num() as int
        }));
        assert(runs_next(ms[n], ms[n + 1], rans[n]));
        assert forall|j: int| 0 <= j < rans.len() implies #[trigger] rans[j] == (if j < ms[0].num() {
            Some(j as usize)
        } else {
            None
        }) by {
            if j < n {
                assert(rans2[j] == rans[j]);
            }
        }
        assert forall|j: int| 0 <= j < ms.len() implies #[trigger] ms[j].current() == (if j
            < ms[0].num() {
            j
        } else {
            ms[0].num() as int
        }) && ms[j].num() == ms[0].num() by {
            assert(ms2[n].num() == ms2[0].num());
            if j <= n {
                assert(ms2[j] == ms[j]);
                assert(ms2[j].num() == ms2[0].num());
            } else {
                assert(j == n + 1);
            }
        }
        assert forall|j: int| 0 <= j < ms.len() implies #[trigger] ms[j].num() == ms[0].num() by {
            assert(ms2[n].num() == ms2[0].num());
            if j <= n {
                assert(ms2[j] == ms[j]);
                assert(ms2[j].num() == ms2[0].num());
            }
        }
    } else {
        assert forall|j: int| 0 <= j < ms.len() implies #[trigger] ms[j].current() == (if j
            < ms[0].num() {
            j
        } else {
            ms[0].num() as int
        }) && ms[j].num() == ms[0].num() by {
            assert(ms[j].num() == ms[0].num());
            assert(j == 0);
        }
    }
}

/// Clears the application area `area` and copies `image` to its start.
pub fn load_app_image(area: &mut [u8], image: &[u8])
    requires
        image@.len() <= old(area)@.len(),
    ensures
        final(area)@.len() == old(area)@.len(),
        forall|i: int| 0 <= i < image@.len() ==> #[trigger] final(area)@[i] == image@[i],
        forall|i: int| image@.len() <= i < final(area)@.len() ==> #[trigger] final(area)@[i] == 0,
{
    let n = area.len();
    let mut i: usize = 0;
    while i < n
        invariant
            n == area@.len(),
            i <= n,
            forall|j: int| 0 <= j < i ==> #[trigger] area@[j] == 0,
        decreases n - i,
    {
        area[i] = 0;
        i = i + 1;
    }
    let mut j: usize = 0;
    while j < image.len()
        invariant
            n == area@.len(),
            image@.len() <= n,
            j <= image@.len(),
            forall|k: int| 0 <= k < j ==> #[trigger] area@[k] == image@[k],
            forall|k: int| j <= k < n ==> #[trigger] area@[k] == 0,
        decreases image@.len() - j,
    {
        area[j] = image[j];
        j = j + 1;
    }
}

/// Decides how the next application runs: when every application has
/// completed, nothing changes; otherwise the current one is to be loaded
/// and entered at `APP_BASE_ADDRESS` with its user stack at `user_sp` and
/// the supervisor status `sstatus` set for user mode, and the manager moves
/// on to the next one.
pub fn run_next_app(manager: &mut AppManager, user_sp: usize, sstatus: usize) -> (r: NextApp)
    requires
        old(manager).wf(),
        old(manager).current() < old(manager).num() ==> old(manager).starts()[old(manager).current() as int]
            <= old(manager).starts()[old(manager).current() + 1],
    ensures
        runs_next(*old(manager), *final(manager), ran_app(r)),
        old(manager).current() >= old(manager).num() ==> r is AllCompleted && *final(manager) == *old(manager),
        old(manager).current() < old(manager).num() ==> {
            &&& final(manager).wf()
            &&& final(manager).current() == old(manager).current() + 1
            &&& final(manager).num() == old(manager).num()
            &&& final(manager).starts() == old(manager).starts()
            &&& r matches NextApp::Run { app_id, src, len, context }
            &&& app_id == old(manager).current()
            &&& src == old(manager).starts()[app_id as int]
            &&& len == old(manager).starts()[app_id + 1] - old(manager).starts()[app_id as int]
            &&& context.x@ == initial_registers(user_sp)
            &&& context.sepc == APP_BASE_ADDRESS
            &&& context.sstatus == sstatus & !0x100usize
        },
{
    let current_app = manager.get_current_app();
    match manager.load_app(current_app) {
        LoadPlan::AllCompleted => NextApp::AllCompleted,
        LoadPlan::Copy { src, len } => {
            manager.move_to_next_app();
            let context = TrapContext::app_init_context(APP_BASE_ADDRESS, user_sp, sstatus);
            NextApp::Run { app_id: current_app, src, len, context }
        },
    }
}

} // verus!
