# cczu_ical

Exports a Changzhou University student's timetable from the teaching system
as an iCalendar file: one event per class meeting, with a reminder, and one
event per week of the semester.

- `src/` is the verified library (Verus). It reads the class table, the
  sign-in form and the service link out of the system's HTML pages, turns
  the class grid into course records, computes each course's meeting dates
  from the first Monday of the term, and builds the calendar. Parsing HTML,
  regular expressions, dates, UUIDs and the calendar document are left to
  `scraper`, `regex`, `chrono`, `uuid` and `icalendar`, behind small trusted
  wrappers whose contracts say what the library relies on.
- `app/` is the program around it: the HTTP session (`reqwest`), the
  command line, the bell-schedule file (`serde_json`) and the C interface.
- `tests/` runs the library on concrete pages, grids and dates.

A custom bell schedule can be placed beside the program as
`custom.config.json`, in the form
`{"classtime": [{"name": "1", "start_time": "0800", "end_time": "0845"}, ...]}`.
