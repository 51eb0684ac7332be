//! Grid geometry: the cell of every day of a twelve-month window.
//!
//! The page is cut into equal columns, each column into month blocks of 32
//! rows: one for the month's heading and 31 for its days. A day that a
//! month lacks leaves its row empty. Lengths are whole numbers of a unit of
//! the caller's choice, such as a thousandth of a point; the origin of the
//! page is its lower left corner.

use crate::date::{is_valid_ymd, iso_week_number, CalendarDate, MAX_YEAR, MIN_YEAR};
use std::collections::HashMap;
use vstd::prelude::*;

verus! {

/// The page and how it is divided.
#[derive(Clone, Copy, Debug, PartialEq, Eq, Structural)]
pub struct PageConfig {
    /// Number of columns of months: 3 or 4.
    pub columns: u32,
    pub page_width: u32,
    pub page_height: u32,
    /// Margin on each of the four sides.
    pub margin: u32,
    /// Space between two columns.
    pub gutter: u32,
    /// Height kept free for the title above the grid.
    pub title_height: u32,
    /// Width of each of the two boxes, day number and weekday, that a
    /// day's row begins with.
    pub day_width: u32,
    /// Space between two lanes.
    pub lane_gutter: u32,
}

/// Why a page configuration cannot be laid out.
#[derive(Clone, Copy, Debug, PartialEq, Eq, Structural)]
pub enum ConfigError {
    /// The number of columns is neither 3 nor 4.
    UnsupportedColumns,
    /// The page leaves no room for a row or for a column.
    NonPositiveDimensions,
    /// The window does not start on the first day of a month.
    StartNotFirstOfMonth,
}

/// The part of a day's cell that the events of one calendar are drawn in.
#[derive(Clone, Copy, Debug, PartialEq, Eq, Structural)]
pub struct Lane {
    /// How far right of the left edge of the cell the lane begins.
    pub offset: u64,
    pub width: u32,
    /// Whether the lane ends within the cell.
    pub within_cell: bool,
}

/// The rectangle of one day.
#[derive(Clone, Copy, Debug, PartialEq, Eq, Structural)]
pub struct CellGeometry {
    pub date: CalendarDate,
    /// Left edge.
    pub x: u32,
    /// Lower edge.
    pub y: u32,
    pub width: u32,
    pub height: u32,
}

impl PageConfig {
    /// Month blocks stacked in one column: the twelve months, evenly.
    pub open spec fn months_per_column(self) -> int {
        12int / self.columns as int
    }

    /// Rows in one column: 32 for each of its month blocks.
    pub open spec fn rows_per_column(self) -> int {
        32 * self.months_per_column()
    }

    /// Height left for the rows.
    pub open spec fn available_height(self) -> int {
        self.page_height - self.title_height - 2 * self.margin
    }

    /// Width left for the columns themselves.
    pub open spec fn available_width(self) -> int {
        self.page_width - 2 * self.margin - self.gutter * (self.columns - 1)
    }

    /// Height of every row.
    pub open spec fn row_height(self) -> int {
        self.available_height() / self.rows_per_column()
    }

    /// Width of every column.
    pub open spec fn column_width(self) -> int {
        self.available_width() / self.columns as int
    }

    /// Width of a lane: half of what the two boxes at the start of a row
    /// leave of the column, less the space between lanes.
    pub open spec fn lane_width(self) -> int {
        (self.column_width() - 2 * self.day_width) / 2 - self.lane_gutter
    }

    /// How far right of the left edge of a cell the lane of calendar
    /// `source` begins: each calendar has a lane of its own, side by side.
    pub open spec fn lane_offset(self, source: int) -> int {
        2 * self.day_width + source * (self.lane_width() + self.lane_gutter)
    }

    /// Whether the columns leave room for lanes.
    pub open spec fn has_lanes(self) -> bool {
        &&& self.columns == 3 || self.columns == 4
        &&& self.column_width() >= 1
        &&& self.lane_width() >= 1
    }

    /// Whether the lane of calendar `source` lies within the cell. A lane
    /// that does not runs over the edge of the column, into what is drawn
    /// to the right of it.
    pub open spec fn lane_within_cell(self, source: int) -> bool {
        self.lane_offset(source) + self.lane_width() <= self.column_width()
    }

    /// What is wrong with the configuration or the start of the window, if
    /// anything.
    pub open spec fn error(self, start: CalendarDate) -> Option<ConfigError> {
        if self.columns != 3 && self.columns != 4 {
            Some(ConfigError::UnsupportedColumns)
        } else if self.row_height() < 1 || self.column_width() < 1 {
            Some(ConfigError::NonPositiveDimensions)
        } else if start.day != 1 {
            Some(ConfigError::StartNotFirstOfMonth)
        } else {
            None
        }
    }

    /// The cell of `date` in the window that starts at `start`.
    pub open spec fn cell(self, start: CalendarDate, date: CalendarDate) -> CellGeometry {
        let k = month_index(start, date);
        let column = k / self.months_per_column();
        let row = 32 * (k % self.months_per_column()) + date.day;
        CellGeometry {
            date,
            x: (self.margin + column * (self.column_width() + self.gutter)) as u32,
            y: (self.page_height - self.margin - self.title_height - (row + 1)
                * self.row_height()) as u32,
            width: self.column_width() as u32,
            height: self.row_height() as u32,
        }
    }

    /// The cells of the window that starts at `start`: one for each day
    /// that exists in its twelve months.
    pub open spec fn cells(self, start: CalendarDate) -> Map<CalendarDate, CellGeometry> {
        Map::new(
            |date: CalendarDate| date.wf() && in_window(start, date),
            |date: CalendarDate| self.cell(start, date),
        )
    }
}

impl PageConfig {
    /// The lane of calendar `source`, where the columns leave room for
    /// lanes and the offset of the lane can be held. Every calendar has a
    /// lane, also one whose lane no longer lies within the cell: the lane
    /// says which is the case.
    pub fn lane(&self, source: usize) -> (r: Option<Lane>)
        ensures
            r == if self.has_lanes() && self.lane_offset(source as int) <= u64::MAX {
                Some(
                    Lane {
                        offset: self.lane_offset(source as int) as u64,
                        width: self.lane_width() as u32,
                        within_cell: self.lane_within_cell(source as int),
                    },
                )
            } else {
                None
            },
    {
        if self.columns != 3 && self.columns != 4 {
            return None;
        }
        let gutters: u64 = if self.columns == 3 {
            2 * self.gutter as u64
        } else {
            3 * self.gutter as u64
        };
        assert(gutters == self.gutter * (self.columns - 1)) by (nonlinear_arith)
            requires
                gutters == if self.columns == 3 {
                    2 * self.gutter
                } else {
                    3 * self.gutter
                },
                self.columns == 3 || self.columns == 4,
        ;
        let reserved: u64 = 2 * self.margin as u64 + gutters;
        if self.page_width as u64 <= reserved {
            assert(self.column_width() < 1) by (nonlinear_arith)
                requires
                    self.available_width() <= 0,
                    self.column_width() == self.available_width() / (self.columns as int),
                    self.columns > 0,
            ;
            return None;
        }
        let column_width: u64 = (self.page_width as u64 - reserved) / self.columns as u64;
        let boxes: u64 = 2 * self.day_width as u64;
        if column_width < 1 || column_width < boxes {
            return None;
        }
        let half: u64 = (column_width - boxes) / 2;
        if half <= self.lane_gutter as u64 {
            return None;
        }
        let width: u64 = half - self.lane_gutter as u64;
        assert(source * half <= 0xFFFF_FFFF_FFFF_FFFF * 0xFFFF_FFFF) by (nonlinear_arith)
            requires
                source <= 0xFFFF_FFFF_FFFF_FFFF,
                0 <= half <= 0xFFFF_FFFF,
        ;
        let offset: u128 = boxes as u128 + source as u128 * half as u128;
        if offset > u64::MAX as u128 {
            return None;
        }
        Some(
            Lane {
                offset: offset as u64,
                width: width as u32,
                within_cell: offset + width as u128 <= column_width as u128,
            },
        )
    }
}

/// How the week of a day is shaded.
#[derive(Clone, Copy, Debug, PartialEq, Eq, Structural)]
pub struct WeekShading {
    /// Whether the week has an odd number: weeks alternate.
    pub week_parity: bool,
    /// Where the week stands in the cycle of four weeks: 0 to 3.
    pub pay_period_phase: u8,
}

/// The shading of the week with ISO number `week`.
pub open spec fn shading_of_week(week: int) -> WeekShading {
    WeekShading { week_parity: week % 2 == 1, pay_period_phase: (week % 4) as u8 }
}

impl WeekShading {
    /// Whether the stripe of the four-week cycle is drawn: in its second
    /// and third week.
    pub open spec fn pay_period_shaded(self) -> bool {
        self.pay_period_phase == 1 || self.pay_period_phase == 2
    }

    /// The shading of the week with ISO number `week`.
    pub fn of_week(week: u32) -> (r: WeekShading)
        ensures
            r == shading_of_week(week as int),
    {
        WeekShading { week_parity: week % 2 == 1, pay_period_phase: (week % 4) as u8 }
    }

    /// The shading of the week that `date` lies in.
    pub fn of_date(date: &CalendarDate) -> (r: WeekShading)
        requires
            date.wf(),
        ensures
            r == shading_of_week(
                iso_week_number(date.year as int, date.month as int, date.day as int),
            ),
    {
        WeekShading::of_week(date.iso_week())
    }

    /// See [`WeekShading::pay_period_shaded`].
    pub fn is_pay_period_shaded(&self) -> (r: bool)
        ensures
            r == self.pay_period_shaded(),
    {
        self.pay_period_phase == 1 || self.pay_period_phase == 2
    }
}

/// Every day that exists in the window has a cell, which bears its date,
/// and a day that does not exist, such as 30 February, has none; nor has a
/// day outside the window.
pub proof fn lemma_cells_domain(
    config: PageConfig,
    start: CalendarDate,
    year: i32,
    month: u32,
    day: u32,
)
    ensures
        ({
            let date = CalendarDate { year, month, day };
            let cells = config.cells(start);
            &&& cells.contains_key(date) <==> is_valid_ymd(year as int, month as int, day as int)
                && in_window(start, date)
            &&& cells.contains_key(date) ==> cells[date].date == date
        }),
{
}

/// The number of months from the month of `start` to the month of `date`.
pub open spec fn month_index(start: CalendarDate, date: CalendarDate) -> int {
    (date.year - start.year) * 12 + (date.month - start.month)
}

/// Whether `date` lies in the twelve months that begin with the month of
/// `start`.
pub open spec fn in_window(start: CalendarDate, date: CalendarDate) -> bool {
    0 <= month_index(start, date) < 12
}

/// Whether the date has a key.
pub open spec fn keyable(date: CalendarDate) -> bool {
    MIN_YEAR <= date.year <= MAX_YEAR && date.month < 16 && date.day < 32
}

/// The integer that a date is filed under.
pub open spec fn date_key(date: CalendarDate) -> u64 {
    ((date.year - MIN_YEAR) * 512 + date.month * 32 + date.day) as u64
}

/// Different dates are filed under different keys.
pub proof fn lemma_date_key_injective(a: CalendarDate, b: CalendarDate)
    requires
        keyable(a),
        keyable(b),
        date_key(a) == date_key(b),
    ensures
        a == b,
{
}

/// The cells of the days, found by date.
pub struct Grid {
    cells: HashMap<u64, CellGeometry>,
}

impl View for Grid {
    type V = Map<CalendarDate, CellGeometry>;

    closed spec fn view(&self) -> Map<CalendarDate, CellGeometry> {
        Map::new(
            |date: CalendarDate| keyable(date) && self.cells@.contains_key(date_key(date)),
            |date: CalendarDate| self.cells@[date_key(date)],
        )
    }
}

impl Grid {
    /// Every cell is filed under its own date, and that date exists.
    pub closed spec fn wf(&self) -> bool {
        forall|k: u64| #[trigger]
            self.cells@.contains_key(k) ==> self.cells@[k].date.wf() && date_key(
                self.cells@[k].date,
            ) == k
    }

    /// In a well-formed grid a date leads to a cell of that date, and only
    /// dates that exist have a cell.
    pub proof fn lemma_cell_date(&self, date: CalendarDate)
        requires
            self.wf(),
            self@.contains_key(date),
        ensures
            self@[date].date == date,
            date.wf(),
    {
        lemma_date_key_injective(self.cells@[date_key(date)].date, date);
    }

    /// A grid without cells.
    pub fn new() -> (r: Grid)
        ensures
            r.wf(),
            r@ == Map::<CalendarDate, CellGeometry>::empty(),
    {
        broadcast use vstd::std_specs::hash::group_hash_axioms;

        let r = Grid { cells: HashMap::new() };
        assert(r@ =~= Map::<CalendarDate, CellGeometry>::empty());
        r
    }

    /// Files `cell` under its date, in place of the cell that the date had.
    pub fn insert(&mut self, cell: CellGeometry)
        requires
            old(self).wf(),
            cell.date.wf(),
        ensures
            final(self).wf(),
            final(self)@ == old(self)@.insert(cell.date, cell),
    {
        broadcast use vstd::std_specs::hash::group_hash_axioms;

        let key = key_of(&cell.date);
        self.cells.insert(key, cell);
        proof {
            assert forall|d: CalendarDate| keyable(d) && d != cell.date implies date_key(d)
                != key by {
                if date_key(d) == key {
                    lemma_date_key_injective(d, cell.date);
                }
            }
            assert(self@ =~= old(self)@.insert(cell.date, cell));
        }
    }

    /// The cell of `date`, if the date has one.
    pub fn get(&self, date: &CalendarDate) -> (r: Option<CellGeometry>)
        ensures
            r == if self@.contains_key(*date) {
                Some(self@[*date])
            } else {
                None
            },
    {
        broadcast use vstd::std_specs::hash::group_hash_axioms;

        if date.year < MIN_YEAR || date.year > MAX_YEAR || date.month >= 16 || date.day >= 32 {
            return None;
        }
        let key = key_of(date);
        match self.cells.get(&key) {
            Some(cell) => Some(*cell),
            None => None,
        }
    }
}

/// The key of a date.
pub(crate) fn key_of(date: &CalendarDate) -> (key: u64)
    requires
        keyable(*date),
    ensures
        key == date_key(*date),
{
    let year: u64 = (date.year as i64 - MIN_YEAR as i64) as u64;
    year * 512 + date.month as u64 * 32 + date.day as u64
}

/// Lays out the twelve months that begin with the month of `start_date`.
///
/// Every day that exists in the window gets the cell that
/// [`PageConfig::cell`] describes, and no other date gets one. A
/// configuration with a number of columns other than 3 or 4, or one that
/// leaves less than one unit for a row or a column, is refused, and so is a
/// start that is not the first of its month.
pub fn base_calendar(config: &PageConfig, start_date: CalendarDate) -> (r: Result<
    Grid,
    ConfigError,
>)
    requires
        start_date.wf(),
    ensures
        match r {
            Ok(grid) => config.error(start_date) is None && grid.wf() && grid@ == config.cells(
                start_date,
            ),
            Err(e) => config.error(start_date) == Some(e),
        },
{
    if config.columns != 3 && config.columns != 4 {
        return Err(ConfigError::UnsupportedColumns);
    }
    let months_per_column: u32 = if config.columns == 3 {
        4
    } else {
        3
    };
    assert((config.columns == 3 && months_per_column == 4) || (config.columns == 4
        && months_per_column == 3));
    assert(months_per_column == config.months_per_column());
    let rows_per_column: u64 = 32 * months_per_column as u64;
    let reserved_height: u64 = config.title_height as u64 + 2 * config.margin as u64;
    let gutters: u64 = if config.columns == 3 {
        2 * config.gutter as u64
    } else {
        3 * config.gutter as u64
    };
    let reserved_width: u64 = 2 * config.margin as u64 + gutters;
    assert(gutters == config.gutter * (config.columns - 1)) by (nonlinear_arith)
        requires
            gutters == if config.columns == 3 {
                2 * config.gutter
            } else {
                3 * config.gutter
            },
            config.columns == 3 || config.columns == 4,
    ;
    assert(config.available_height() == config.page_height - reserved_height);
    assert(config.available_width() == config.page_width - reserved_width);
    if config.page_height as u64 <= reserved_height || config.page_width as u64 <= reserved_width {
        assert(config.row_height() < 1 || config.column_width() < 1) by (nonlinear_arith)
            requires
                config.available_height() <= 0 || config.available_width() <= 0,
                config.row_height() == config.available_height() / (rows_per_column as int),
                config.column_width() == config.available_width() / (config.columns as int),
                rows_per_column > 0,
                config.columns > 0,
        ;
        return Err(ConfigError::NonPositiveDimensions);
    }
    let row_height: u64 = (config.page_height as u64 - reserved_height) / rows_per_column;
    let column_width: u64 = (config.page_width as u64 - reserved_width) / config.columns as u64;
    if row_height < 1 || column_width < 1 {
        return Err(ConfigError::NonPositiveDimensions);
    }
    if start_date.day != 1 {
        return Err(ConfigError::StartNotFirstOfMonth);
    }
    let top: u64 = config.page_height as u64 - config.margin as u64 - config.title_height as u64;
    let mut grid = Grid::new();
    let mut year: i32 = start_date.year;
    let mut month: u32 = start_date.month;
    let mut k: u32 = 0;
    while k < 12
        invariant
            start_date.wf(),
            start_date.day == 1,
            (config.columns == 3 && months_per_column == 4) || (config.columns == 4
                && months_per_column == 3),
            months_per_column == config.months_per_column(),
            rows_per_column == config.rows_per_column(),
            row_height == config.row_height(),
            column_width == config.column_width(),
            row_height >= 1,
            column_width >= 1,
            top == config.page_height - config.margin - config.title_height,
            top - config.margin == config.available_height(),
            config.available_height() >= 0,
            config.available_width() >= 0,
            k <= 12,
            1 <= month <= 12,
            year as int * 12 + month == start_date.year as int * 12 + start_date.month + k,
            grid.wf(),
            forall|d: CalendarDate|
                grid@.contains_key(d) <==> d.wf() && 0 <= month_index(start_date, d) < k,
            forall|d: CalendarDate| #[trigger]
                grid@.contains_key(d) ==> grid@[d] == config.cell(start_date, d),
        decreases 12 - k,
    {
        let column: u64 = (k / months_per_column) as u64;
        let block: u64 = (k % months_per_column) as u64;
        let stride: u64 = column_width + config.gutter as u64;
        assert(column * stride + column_width <= config.page_width - 2 * config.margin) by (nonlinear_arith)
            requires
                column + 1 <= config.columns,
                stride == column_width + config.gutter,
                column_width == config.available_width() / (config.columns as int),
                config.available_width() == config.page_width - 2 * config.margin - config.gutter
                    * (config.columns - 1),
                config.available_width() >= 0,
                config.columns > 0,
        ;
        let left: u64 = config.margin as u64 + column * stride;
        let mut day: u32 = 1;
        while day <= 31
            invariant
                start_date.wf(),
                start_date.day == 1,
                (config.columns == 3 && months_per_column == 4) || (config.columns == 4
                    && months_per_column == 3),
                months_per_column == config.months_per_column(),
                rows_per_column == config.rows_per_column(),
                row_height == config.row_height(),
                column_width == config.column_width(),
                row_height >= 1,
                column_width >= 1,
                top == config.page_height - config.margin - config.title_height,
                top - config.margin == config.available_height(),
                config.available_height() >= 0,
                config.available_width() >= 0,
                k < 12,
                1 <= month <= 12,
                year as int * 12 + month == start_date.year as int * 12 + start_date.month + k,
                column == k as int / config.months_per_column(),
                block == k as int % config.months_per_column(),
                block < config.months_per_column(),
                left == config.margin + column * (config.column_width() + config.gutter),
                left + column_width <= config.page_width,
                1 <= day <= 32,
                grid.wf(),
                forall|d: CalendarDate|
                    grid@.contains_key(d) <==> d.wf() && (0 <= month_index(start_date, d) < k || (
                    month_index(start_date, d) == k && d.day < day)),
                forall|d: CalendarDate| #[trigger]
                    grid@.contains_key(d) ==> grid@[d] == config.cell(start_date, d),
            decreases 32 - day,
        {
            match CalendarDate::from_ymd_opt(year, month, day) {
                Some(today) => {
                    let row: u64 = 32 * block + day as u64;
                    assert((row + 1) * row_height <= top - config.margin) by (nonlinear_arith)
                        requires
                            row + 1 <= rows_per_column,
                            row_height == (top - config.margin) / (rows_per_column as int),
                            rows_per_column > 0,
                            top - config.margin >= 0,
                    ;
                    let bottom: u64 = top - (row + 1) * row_height;
                    let cell = CellGeometry {
                        date: today,
                        x: left as u32,
                        y: bottom as u32,
                        width: column_width as u32,
                        height: row_height as u32,
                    };
                    assert(month_index(start_date, today) == k);
                    assert(cell == config.cell(start_date, today));
                    grid.insert(cell);
                },
                None => {},
            }
            day = day + 1;
        }
        k = k + 1;
        month = month + 1;
        if month > 12 {
            month = 1;
            year = year + 1;
        }
    }
    assert(grid@ =~= config.cells(start_date));
    Ok(grid)
}

} // verus!
